//! The tailshare configuration and the operations on it: recording device
//! IPs, finding stale device names, renaming a device and applying the
//! `config` subcommands.

use vstd::prelude::*;
use crate::cli::ConfigCommands;
use crate::strmap::{StrMap, swap_value};
use crate::tailscale::{
    Device, find_by_short_name, first_short_name_match, lemma_first_short_name_match,
};
use crate::text::{
    byte_len, byte_len_at_least, chars_of, concat_str, contains, has_infix, lemma_string_views_push,
    split_by, split_on, str_eq, str_eq_ignore_ascii_case, eq_ascii_ci, string_views, to_lowercase,
    unicode_lowercase, views,
};

verus! {

/// The tailshare configuration.
pub struct Config {
    pub default_device: Option<String>,
    /// OS of the current (local) machine: "macos", "linux", "windows"
    pub local_os: Option<String>,
    pub aliases: StrMap,
    pub users: StrMap,
    /// Override OS per device (device name -> "macos"/"linux"/"windows")
    pub os_overrides: StrMap,
    /// Stable Tailscale IP for each device (short_name -> IP).
    /// Used to match devices after name changes.
    pub device_ips: StrMap,
}

impl Config {
    /// Every map of the configuration is well formed.
    pub open spec fn wf(&self) -> bool {
        &&& self.aliases.wf()
        &&& self.users.wf()
        &&& self.os_overrides.wf()
        &&& self.device_ips.wf()
    }
}

impl Default for Config {
    fn default() -> (c: Config)
        ensures
            c.wf(),
            c.default_device is None,
            c.local_os is None,
            c.aliases@ == Map::<Seq<char>, Seq<char>>::empty(),
            c.users@ == Map::<Seq<char>, Seq<char>>::empty(),
            c.os_overrides@ == Map::<Seq<char>, Seq<char>>::empty(),
            c.device_ips@ == Map::<Seq<char>, Seq<char>>::empty(),
    {
        Config {
            default_device: None,
            local_os: None,
            aliases: StrMap::new(),
            users: StrMap::new(),
            os_overrides: StrMap::new(),
            device_ips: StrMap::new(),
        }
    }
}

// ---------------------------------------------------------------------------
// Recording device IPs
// ---------------------------------------------------------------------------

/// Recording `ip` for `name` changes `ips`: the name has no IP or
/// another one.
pub open spec fn ip_changes(ips: Map<Seq<char>, Seq<char>>, name: Seq<char>, ip: Seq<char>) -> bool {
    !(ips.dom().contains(name) && ips[name] == ip)
}

/// Recording an IP a second time changes nothing: once recorded, the IP
/// is what the table holds for the name.
pub proof fn law_record_device_ip_idempotent(ips: Map<Seq<char>, Seq<char>>, name: Seq<char>, ip: Seq<char>)
    ensures
        !ip_changes(ips.insert(name, ip), name, ip),
        ips.insert(name, ip).insert(name, ip) == ips.insert(name, ip),
{
    assert(ips.insert(name, ip).insert(name, ip) =~= ips.insert(name, ip));
}

/// Records `ip` as the stable IP of the device `short_name`, so that the
/// device can be matched after a name change. Returns whether the stored
/// IP changed, that is whether the configuration must be saved.
pub fn record_device_ip(config: &mut Config, short_name: &str, ip: &str) -> (changed: bool)
    requires
        old(config).wf(),
    ensures
        final(config).wf(),
        final(config).device_ips@ == old(config).device_ips@.insert(short_name@, ip@),
        changed == ip_changes(old(config).device_ips@, short_name@, ip@),
        final(config).default_device == old(config).default_device,
        final(config).local_os == old(config).local_os,
        final(config).aliases == old(config).aliases,
        final(config).users == old(config).users,
        final(config).os_overrides == old(config).os_overrides,
{
    let same = match config.device_ips.get(short_name) {
        Some(existing) => str_eq(existing.as_str(), ip),
        None => false,
    };
    if !same {
        config.device_ips.insert(short_name.to_owned(), ip.to_owned());
    } else {
        assert(config.device_ips@ =~= old(config).device_ips@.insert(short_name@, ip@));
    }
    !same
}

// ---------------------------------------------------------------------------
// Backfilling device IPs
// ---------------------------------------------------------------------------

/// The one-element sequence of the value, if there is one.
pub open spec fn opt_seq(o: Option<String>) -> Seq<Seq<char>> {
    match o {
        Some(s) => seq![s@],
        None => seq![],
    }
}

/// Every device name the configuration refers to: the default device, the
/// alias targets, and the keys of the user and OS override tables.
pub open spec fn referenced_names(c: Config) -> Seq<Seq<char>> {
    opt_seq(c.default_device) + c.aliases.value_seq() + c.users.key_seq()
        + c.os_overrides.key_seq()
}

/// The IPs to record for the names among `names`: each name that has no
/// IP in `ips` and matches a device's short name (ASCII letters compared
/// without case) gets the IP of the first such device.
pub open spec fn backfill_from(ips: Map<Seq<char>, Seq<char>>, ds: Seq<Device>, names: Seq<Seq<char>>) -> Map<
    Seq<char>,
    Seq<char>,
> {
    Map::new(
        |n: Seq<char>|
            names.contains(n) && !ips.dom().contains(n) && first_short_name_match(ds, n, 0) is Some,
        |n: Seq<char>| ds[first_short_name_match(ds, n, 0)->0].ip@,
    )
}

/// The IPs that backfilling records for configuration `c`.
pub open spec fn backfilled(c: Config, ds: Seq<Device>) -> Map<Seq<char>, Seq<char>> {
    backfill_from(c.device_ips@, ds, referenced_names(c))
}

/// The names the configuration refers to, as `referenced_names` lists them.
pub fn referenced_name_list(config: &Config) -> (r: Vec<String>)
    requires
        config.wf(),
    ensures
        string_views(r@) == referenced_names(*config),
{
    let mut r: Vec<String> = Vec::new();
    match &config.default_device {
        Some(d) => {
            let c = d.clone();
            proof {
                lemma_string_views_push(r@, c);
            }
            r.push(c);
        },
        None => {},
    }
    assert(string_views(r@) =~= opt_seq(config.default_device));
    let ghost base = string_views(r@);
    let mut i: usize = 0;
    while i < config.aliases.len()
        invariant
            i <= config.aliases.pairs().len(),
            base == opt_seq(config.default_device),
            string_views(r@) == base + config.aliases.value_seq().take(i as int),
        decreases config.aliases.pairs().len() - i,
    {
        let v = config.aliases.value_at(i).clone();
        proof {
            lemma_string_views_push(r@, v);
        }
        r.push(v);
        i = i + 1;
        assert(string_views(r@) =~= base + config.aliases.value_seq().take(i as int));
    }
    assert(config.aliases.value_seq().take(i as int) =~= config.aliases.value_seq());
    let ghost base = string_views(r@);
    let mut i: usize = 0;
    while i < config.users.len()
        invariant
            i <= config.users.pairs().len(),
            base == opt_seq(config.default_device) + config.aliases.value_seq(),
            string_views(r@) == base + config.users.key_seq().take(i as int),
        decreases config.users.pairs().len() - i,
    {
        let k = config.users.key_at(i).clone();
        proof {
            lemma_string_views_push(r@, k);
        }
        r.push(k);
        i = i + 1;
        assert(string_views(r@) =~= base + config.users.key_seq().take(i as int));
    }
    assert(config.users.key_seq().take(i as int) =~= config.users.key_seq());
    let ghost base = string_views(r@);
    let mut i: usize = 0;
    while i < config.os_overrides.len()
        invariant
            i <= config.os_overrides.pairs().len(),
            base == opt_seq(config.default_device) + config.aliases.value_seq()
                + config.users.key_seq(),
            string_views(r@) == base + config.os_overrides.key_seq().take(i as int),
        decreases config.os_overrides.pairs().len() - i,
    {
        let k = config.os_overrides.key_at(i).clone();
        proof {
            lemma_string_views_push(r@, k);
        }
        r.push(k);
        i = i + 1;
        assert(string_views(r@) =~= base + config.os_overrides.key_seq().take(i as int));
    }
    assert(config.os_overrides.key_seq().take(i as int) =~= config.os_overrides.key_seq());
    r
}

/// Records, in `ips`, the IPs that backfilling gives the names among
/// `names`. Returns how many were added.
fn backfill_into(ips: &mut StrMap, names: &Vec<String>, devices: &[Device]) -> (added: usize)
    requires
        old(ips).wf(),
    ensures
        final(ips).wf(),
        final(ips)@ == old(ips)@.union_prefer_right(
            backfill_from(old(ips)@, devices@, string_views(names@)),
        ),
        added == backfill_from(old(ips)@, devices@, string_views(names@)).dom().len(),
        final(ips)@.dom().len() == old(ips)@.dom().len() + added,
{
    let ghost nv = string_views(names@);
    let ghost old_ips = ips@;
    let ghost ds = devices@;
    proof {
        ips.lemma_view();
    }
    let mut added: usize = 0;
    let mut t: usize = 0;
    assert(ips@ =~= old_ips.union_prefer_right(backfill_from(old_ips, ds, nv.take(0))));
    while t < names.len()
        invariant
            t <= names.len(),
            nv == string_views(names@),
            old_ips == old(ips)@,
            ds == devices@,
            ips.wf(),
            ips@ == old_ips.union_prefer_right(backfill_from(old_ips, ds, nv.take(t as int))),
            ips@.dom().finite(),
            ips@.dom().len() == old_ips.dom().len() + added,
            added <= t,
        decreases names.len() - t,
    {
        let ghost n = nv[t as int];
        assert(names@[t as int]@ == n);
        let ghost s0 = nv.take(t as int);
        let ghost s1 = nv.take(t + 1);
        assert forall|x: Seq<char>| s1.contains(x) <==> (s0.contains(x) || x == n) by {
            if s1.contains(x) {
                let j = choose|j: int| 0 <= j < s1.len() && #[trigger] s1[j] == x;
                if j < t {
                    assert(s0[j] == x);
                }
            }
            if s0.contains(x) {
                let j = choose|j: int| 0 <= j < s0.len() && #[trigger] s0[j] == x;
                assert(s1[j] == x);
            }
            if x == n {
                assert(s1[t as int] == x);
            }
        }
        if !ips.contains_key(names[t].as_str()) {
            match find_by_short_name(devices, names[t].as_str()) {
                Some(i) => {
                    proof {
                        lemma_first_short_name_match(ds, n, 0);
                    }
                    let ghost before = *ips;
                    ips.insert(names[t].clone(), devices[i].ip.clone());
                    proof {
                        before.lemma_view();
                        ips.lemma_view();
                    }
                    added = added + 1;
                    assert(ips@ =~= old_ips.union_prefer_right(backfill_from(old_ips, ds, s1)));
                },
                None => {
                    assert(ips@ =~= old_ips.union_prefer_right(backfill_from(old_ips, ds, s1)));
                },
            }
        } else {
            assert(ips@ =~= old_ips.union_prefer_right(backfill_from(old_ips, ds, s1)));
        }
        t = t + 1;
    }
    assert(nv.take(t as int) =~= nv);
    proof {
        let b = backfill_from(old_ips, ds, nv);
        let fin = ips@.dom();
        assert(b.dom().subset_of(fin));
        vstd::set_lib::lemma_set_subset_finite(fin, b.dom());
        assert(old_ips.dom().subset_of(fin));
        vstd::set_lib::lemma_set_subset_finite(fin, old_ips.dom());
        assert(old_ips.dom().disjoint(b.dom()));
        assert(fin =~= old_ips.dom() + b.dom());
        vstd::set_lib::lemma_set_disjoint_lens(old_ips.dom(), b.dom());
    }
    added
}

/// Records IPs for the device names the configuration refers to that have
/// none yet and match a device on the tailnet. Returns how many were added,
/// that is whether the configuration must be saved.
pub fn backfill_device_ips(config: &mut Config, devices: &[Device]) -> (added: usize)
    requires
        old(config).wf(),
    ensures
        final(config).wf(),
        final(config).device_ips@ == old(config).device_ips@.union_prefer_right(
            backfilled(*old(config), devices@),
        ),
        added == backfilled(*old(config), devices@).dom().len(),
        final(config).device_ips@.dom().len() == old(config).device_ips@.dom().len() + added,
        final(config).default_device == old(config).default_device,
        final(config).local_os == old(config).local_os,
        final(config).aliases == old(config).aliases,
        final(config).users == old(config).users,
        final(config).os_overrides == old(config).os_overrides,
{
    let names = referenced_name_list(config);
    backfill_into(&mut config.device_ips, &names, devices)
}

/// How many IPs backfilling would record, without changing anything: what
/// a dry run reports.
pub fn would_backfill_count(config: &Config, devices: &[Device]) -> (n: usize)
    requires
        config.wf(),
    ensures
        n == backfilled(*config, devices@).dom().len(),
{
    let names = referenced_name_list(config);
    let mut scratch = config.device_ips.copy();
    backfill_into(&mut scratch, &names, devices)
}

// ---------------------------------------------------------------------------
// Validating the configuration against the tailnet
// ---------------------------------------------------------------------------

/// The first device at or after `from` whose IP is `ip`.
pub open spec fn first_ip_match(ds: Seq<Device>, ip: Seq<char>, from: int) -> Option<int>
    decreases ds.len() - from,
{
    if from < 0 || from >= ds.len() {
        None
    } else if ds[from].ip@ == ip {
        Some(from)
    } else {
        first_ip_match(ds, ip, from + 1)
    }
}

/// Some piece of at least three bytes occurs in `hay`.
pub open spec fn any_part_within(parts: Seq<Seq<char>>, hay: Seq<char>) -> bool {
    exists|k: int| 0 <= k < parts.len() && byte_len(#[trigger] parts[k]) >= 3 && has_infix(hay, parts[k])
}

/// Two lowercased names are similar: a `-`-separated piece of at least
/// three bytes of one occurs in the other.
pub open spec fn similar_names(nl: Seq<char>, sl: Seq<char>) -> bool {
    any_part_within(split_by(nl, '-'), sl) || any_part_within(split_by(sl, '-'), nl)
}

/// The short names, in order, of the devices whose lowercased short name is
/// similar to `nl`.
pub open spec fn similar_devices(ds: Seq<Device>, nl: Seq<char>) -> Seq<Seq<char>>
    decreases ds.len(),
{
    if ds.len() == 0 {
        seq![]
    } else {
        similar_devices(ds.drop_last(), nl) + if similar_names(
            nl,
            unicode_lowercase(ds.last().short_name@),
        ) {
            seq![ds.last().short_name@]
        } else {
            seq![]
        }
    }
}

/// The suggested replacements for a stale name: the device now holding the
/// IP recorded for the name, if it goes by another name; otherwise the
/// devices with a similar name.
pub open spec fn suggestions_for(c: Config, ds: Seq<Device>, name: Seq<char>) -> Seq<Seq<char>> {
    let by_ip = if c.device_ips@.dom().contains(name) {
        first_ip_match(ds, c.device_ips@[name], 0)
    } else {
        None
    };
    if by_ip is Some && !eq_ascii_ci(ds[by_ip->0].short_name@, name) {
        seq![ds[by_ip->0].short_name@]
    } else {
        similar_devices(ds, unicode_lowercase(name))
    }
}

/// A stale config entry that references a device name not found on the tailnet.
#[derive(Debug)]
pub struct StaleEntry {
    pub section: String,
    pub key: String,
    pub suggestions: Vec<String>,
}

/// The abstract value of a [`StaleEntry`].
pub struct StaleView {
    pub section: Seq<char>,
    pub key: Seq<char>,
    pub suggestions: Seq<Seq<char>>,
}

impl View for StaleEntry {
    type V = StaleView;

    open spec fn view(&self) -> StaleView {
        StaleView {
            section: self.section@,
            key: self.key@,
            suggestions: string_views(self.suggestions@),
        }
    }
}

/// The views of a sequence of stale entries.
pub open spec fn stale_views(v: Seq<StaleEntry>) -> Seq<StaleView> {
    v.map_values(|e: StaleEntry| e@)
}

/// The name matches no device's short name.
pub open spec fn is_stale(ds: Seq<Device>, name: Seq<char>) -> bool {
    first_short_name_match(ds, name, 0) is None
}

/// The stale entry for `name` in `section`, if `name` is stale.
pub open spec fn stale_if(c: Config, ds: Seq<Device>, section: Seq<char>, name: Seq<char>) -> Seq<
    StaleView,
> {
    if is_stale(ds, name) {
        seq![StaleView { section: section, key: name, suggestions: suggestions_for(c, ds, name) }]
    } else {
        seq![]
    }
}

/// The stale entries among `keys`, all in `section`.
pub open spec fn stale_keys(c: Config, ds: Seq<Device>, keys: Seq<Seq<char>>, section: Seq<char>) -> Seq<
    StaleView,
>
    decreases keys.len(),
{
    if keys.len() == 0 {
        seq![]
    } else {
        stale_keys(c, ds, keys.drop_last(), section) + stale_if(c, ds, section, keys.last())
    }
}

/// The stale alias targets, each in section `aliases.<alias>`.
pub open spec fn stale_aliases(c: Config, ds: Seq<Device>, ps: Seq<(Seq<char>, Seq<char>)>) -> Seq<
    StaleView,
>
    decreases ps.len(),
{
    if ps.len() == 0 {
        seq![]
    } else {
        stale_aliases(c, ds, ps.drop_last()) + stale_if(
            c,
            ds,
            "aliases."@ + ps.last().0,
            ps.last().1,
        )
    }
}

/// The stale entries of a configuration: the default device, the alias
/// targets, the user keys and the OS override keys, in that order.
pub open spec fn stale_entries(c: Config, ds: Seq<Device>) -> Seq<StaleView> {
    stale_keys(c, ds, opt_seq(c.default_device), "default_device"@) + stale_aliases(
        c,
        ds,
        c.aliases.pairs(),
    ) + stale_keys(c, ds, c.users.key_seq(), "users"@) + stale_keys(
        c,
        ds,
        c.os_overrides.key_seq(),
        "os_overrides"@,
    )
}

/// Some piece of at least three bytes occurs in `hay`.
fn part_within(parts: &Vec<Vec<char>>, hay: &[char]) -> (r: bool)
    ensures
        r == any_part_within(views(parts@), hay@),
{
    let mut k: usize = 0;
    while k < parts.len()
        invariant
            k <= parts.len(),
            forall|j: int|
                0 <= j < k ==> !(byte_len(#[trigger] views(parts@)[j]) >= 3 && has_infix(
                    hay@,
                    views(parts@)[j],
                )),
        decreases parts.len() - k,
    {
        assert(views(parts@)[k as int] == parts@[k as int]@);
        if byte_len_at_least(&parts[k], 3) && contains(hay, &parts[k]) {
            return true;
        }
        k = k + 1;
    }
    false
}

/// Whether two lowercased names are similar: a `-`-separated piece of at
/// least three bytes of one occurs in the other.
pub fn names_similar(nl: &str, sl: &str) -> (r: bool)
    ensures
        r == similar_names(nl@, sl@),
{
    let a = chars_of(nl);
    let b = chars_of(sl);
    let pa = split_on(&a, '-');
    if part_within(&pa, &b) {
        return true;
    }
    let pb = split_on(&b, '-');
    part_within(&pb, &a)
}

/// The position of the first device whose IP is `ip`.
pub fn find_by_ip(devices: &[Device], ip: &str) -> (r: Option<usize>)
    ensures
        match r {
            Some(i) => first_ip_match(devices@, ip@, 0) == Some(i as int) && i < devices.len(),
            None => first_ip_match(devices@, ip@, 0) is None,
        },
{
    let mut i: usize = 0;
    while i < devices.len()
        invariant
            i <= devices.len(),
            first_ip_match(devices@, ip@, 0) == first_ip_match(devices@, ip@, i as int),
        decreases devices.len() - i,
    {
        if str_eq(devices[i].ip.as_str(), ip) {
            return Some(i);
        }
        i = i + 1;
    }
    None
}

/// Suggested replacements for a stale device name.
pub fn find_suggestions(config: &Config, devices: &[Device], name: &str) -> (r: Vec<String>)
    requires
        config.wf(),
    ensures
        string_views(r@) == suggestions_for(*config, devices@, name@),
{
    match config.device_ips.get(name) {
        Some(stored) => {
            match find_by_ip(devices, stored.as_str()) {
                Some(i) => {
                    if !str_eq_ignore_ascii_case(devices[i].short_name.as_str(), name) {
                        let s = devices[i].short_name.clone();
                        let r = vec![s];
                        assert(string_views(r@) =~= seq![s@]);
                        return r;
                    }
                },
                None => {},
            }
        },
        None => {},
    }
    let nl = to_lowercase(name);
    let mut r: Vec<String> = Vec::new();
    let mut i: usize = 0;
    assert(devices@.take(0) =~= Seq::<Device>::empty());
    while i < devices.len()
        invariant
            i <= devices.len(),
            nl@ == unicode_lowercase(name@),
            string_views(r@) == similar_devices(devices@.take(i as int), nl@),
        decreases devices.len() - i,
    {
        assert(devices@.take(i + 1).drop_last() =~= devices@.take(i as int));
        assert(devices@.take(i + 1).last() == devices@[i as int]);
        let sl = to_lowercase(devices[i].short_name.as_str());
        if names_similar(nl.as_str(), sl.as_str()) {
            let s = devices[i].short_name.clone();
            proof {
                lemma_string_views_push(r@, s);
            }
            r.push(s);
        }
        i = i + 1;
        assert(string_views(r@) =~= similar_devices(devices@.take(i as int), nl@));
    }
    assert(devices@.take(i as int) =~= devices@);
    r
}

proof fn lemma_stale_views_push(v: Seq<StaleEntry>, e: StaleEntry)
    ensures
        stale_views(v.push(e)) == stale_views(v) + seq![e@],
{
    assert(stale_views(v.push(e)) =~= stale_views(v) + seq![e@]);
}

/// Appends the stale entry for `name` in `section`, if `name` is stale.
fn push_if_stale(
    out: &mut Vec<StaleEntry>,
    config: &Config,
    devices: &[Device],
    section: String,
    name: &String,
)
    requires
        config.wf(),
    ensures
        stale_views(final(out)@) == stale_views(old(out)@) + stale_if(
            *config,
            devices@,
            section@,
            name@,
        ),
{
    match find_by_short_name(devices, name.as_str()) {
        Some(_) => {
            assert(stale_views(out@) + stale_if(*config, devices@, section@, name@) =~= stale_views(
                out@,
            ));
        },
        None => {
            let suggestions = find_suggestions(config, devices, name.as_str());
            let e = StaleEntry { section, key: name.clone(), suggestions };
            proof {
                lemma_stale_views_push(out@, e);
            }
            out.push(e);
        },
    }
}

/// Checks every device name in the configuration against the devices on
/// the tailnet and returns the stale ones with suggested replacements. The
/// IP recorded for a name matches a renamed device exactly; otherwise
/// similar names are suggested.
pub fn validate_config(config: &Config, devices: &[Device]) -> (r: Vec<StaleEntry>)
    requires
        config.wf(),
    ensures
        stale_views(r@) == stale_entries(*config, devices@),
{
    let ghost c = *config;
    let ghost ds = devices@;
    let mut out: Vec<StaleEntry> = Vec::new();
    match &config.default_device {
        Some(d) => {
            let section = "default_device".to_owned();
            push_if_stale(&mut out, config, devices, section, d);
            let ghost names = opt_seq(c.default_device);
            assert(names.drop_last() =~= Seq::<Seq<char>>::empty());
            assert(names.last() == d@);
            assert(stale_keys(c, ds, names, "default_device"@) == stale_keys(
                c,
                ds,
                names.drop_last(),
                "default_device"@,
            ) + stale_if(c, ds, "default_device"@, d@));
            assert(stale_views(out@) =~= stale_keys(c, ds, names, "default_device"@));
        },
        None => {
            assert(stale_views(out@) =~= stale_keys(
                c,
                ds,
                opt_seq(c.default_device),
                "default_device"@,
            ));
        },
    }
    let ghost base = stale_views(out@);
    let ghost ps = config.aliases.pairs();
    let mut i: usize = 0;
    assert(ps.take(0) =~= Seq::<(Seq<char>, Seq<char>)>::empty());
    while i < config.aliases.len()
        invariant
            i <= ps.len(),
            ps == config.aliases.pairs(),
            c == *config,
            ds == devices@,
            config.wf(),
            base == stale_keys(c, ds, opt_seq(c.default_device), "default_device"@),
            stale_views(out@) == base + stale_aliases(c, ds, ps.take(i as int)),
        decreases ps.len() - i,
    {
        assert(ps.take(i + 1).drop_last() =~= ps.take(i as int));
        assert(ps.take(i + 1).last() == ps[i as int]);
        let section = concat_str("aliases.", config.aliases.key_at(i).as_str());
        push_if_stale(&mut out, config, devices, section, config.aliases.value_at(i));
        i = i + 1;
        assert(stale_views(out@) =~= base + stale_aliases(c, ds, ps.take(i as int)));
    }
    assert(ps.take(i as int) =~= ps);
    let ghost base = stale_views(out@);
    let ghost ks = config.users.key_seq();
    let mut i: usize = 0;
    assert(ks.take(0) =~= Seq::<Seq<char>>::empty());
    while i < config.users.len()
        invariant
            i <= ks.len(),
            ks == config.users.key_seq(),
            ks.len() == config.users.pairs().len(),
            c == *config,
            ds == devices@,
            config.wf(),
            stale_views(out@) == base + stale_keys(c, ds, ks.take(i as int), "users"@),
        decreases ks.len() - i,
    {
        assert(ks.take(i + 1).drop_last() =~= ks.take(i as int));
        assert(ks.take(i + 1).last() == ks[i as int]);
        push_if_stale(&mut out, config, devices, "users".to_owned(), config.users.key_at(i));
        i = i + 1;
        assert(stale_views(out@) =~= base + stale_keys(c, ds, ks.take(i as int), "users"@));
    }
    assert(ks.take(i as int) =~= ks);
    let ghost base = stale_views(out@);
    let ghost ks = config.os_overrides.key_seq();
    let mut i: usize = 0;
    assert(ks.take(0) =~= Seq::<Seq<char>>::empty());
    while i < config.os_overrides.len()
        invariant
            i <= ks.len(),
            ks == config.os_overrides.key_seq(),
            ks.len() == config.os_overrides.pairs().len(),
            c == *config,
            ds == devices@,
            config.wf(),
            stale_views(out@) == base + stale_keys(c, ds, ks.take(i as int), "os_overrides"@),
        decreases ks.len() - i,
    {
        assert(ks.take(i + 1).drop_last() =~= ks.take(i as int));
        assert(ks.take(i + 1).last() == ks[i as int]);
        push_if_stale(
            &mut out,
            config,
            devices,
            "os_overrides".to_owned(),
            config.os_overrides.key_at(i),
        );
        i = i + 1;
        assert(stale_views(out@) =~= base + stale_keys(c, ds, ks.take(i as int), "os_overrides"@));
    }
    assert(ks.take(i as int) =~= ks);
    out
}

// ---------------------------------------------------------------------------
// Renaming a device
// ---------------------------------------------------------------------------

/// `m` with the entry for `old` moved to key `new`, if there is one.
pub open spec fn renamed_key(m: Map<Seq<char>, Seq<char>>, old: Seq<char>, new: Seq<char>) -> Map<
    Seq<char>,
    Seq<char>,
> {
    if m.dom().contains(old) {
        m.remove(old).insert(new, m[old])
    } else {
        m
    }
}

/// The default device after renaming `old` to `new`.
pub open spec fn renamed_default(d: Option<Seq<char>>, old: Seq<char>, new: Seq<char>) -> Option<
    Seq<char>,
> {
    if d == Some(old) {
        Some(new)
    } else {
        d
    }
}

/// Some alias points at `name`.
pub open spec fn alias_targets(m: Map<Seq<char>, Seq<char>>, name: Seq<char>) -> bool {
    exists|k: Seq<char>| m.dom().contains(k) && #[trigger] m[k] == name
}

/// Moves `old` to `new` within one map, returning whether `old` was a key.
fn rename_key_in(m: &mut StrMap, old_name: &str, new_name: &str) -> (moved: bool)
    requires
        old(m).wf(),
    ensures
        final(m).wf(),
        final(m)@ == renamed_key(old(m)@, old_name@, new_name@),
        moved == old(m)@.dom().contains(old_name@),
{
    match m.remove(old_name) {
        Some(v) => {
            m.insert(new_name.to_owned(), v);
            true
        },
        None => {
            assert(m@ =~= old(m)@);
            false
        },
    }
}

/// `after` is `before` with device `old` renamed to `new`: the default
/// device and alias targets that were `old` are `new`, and the user, OS
/// override and IP entries for `old` are now under `new`.
pub open spec fn is_renamed(before: Config, after: Config, old: Seq<char>, new: Seq<char>) -> bool {
    &&& after.wf()
    &&& after.default_device.deep_view() == renamed_default(before.default_device.deep_view(), old, new)
    &&& after.local_os == before.local_os
    &&& after.aliases@ == before.aliases@.map_values(|v: Seq<char>| swap_value(v, old, new))
    &&& after.users@ == renamed_key(before.users@, old, new)
    &&& after.os_overrides@ == renamed_key(before.os_overrides@, old, new)
    &&& after.device_ips@ == renamed_key(before.device_ips@, old, new)
}

/// The configuration refers to `old` somewhere a rename changes.
pub open spec fn refers_to(c: Config, old: Seq<char>) -> bool {
    ||| c.default_device.deep_view() == Some(old)
    ||| alias_targets(c.aliases@, old)
    ||| c.users@.dom().contains(old)
    ||| c.os_overrides@.dom().contains(old)
    ||| c.device_ips@.dom().contains(old)
}

/// Renames a device key across all config sections: the default device,
/// alias targets, and the keys of the user, OS override and IP tables.
/// Returns whether anything changed, that is whether the configuration
/// must be saved.
pub fn rename_device(config: &mut Config, old_name: &str, new_name: &str) -> (changed: bool)
    requires
        old(config).wf(),
    ensures
        is_renamed(*old(config), *final(config), old_name@, new_name@),
        changed == refers_to(*old(config), old_name@),
{
    let mut changed = false;
    let is_default = match &config.default_device {
        Some(d) => str_eq(d.as_str(), old_name),
        None => false,
    };
    if is_default {
        config.default_device = Some(new_name.to_owned());
        changed = true;
    }
    if config.aliases.replace_values(old_name, new_name) {
        changed = true;
    }
    if rename_key_in(&mut config.users, old_name, new_name) {
        changed = true;
    }
    if rename_key_in(&mut config.os_overrides, old_name, new_name) {
        changed = true;
    }
    if rename_key_in(&mut config.device_ips, old_name, new_name) {
        changed = true;
    }
    changed
}

// ---------------------------------------------------------------------------
// The config subcommands
// ---------------------------------------------------------------------------

/// Applies a `config` subcommand other than `doctor` to the configuration.
/// Returns whether the configuration must then be saved: every subcommand
/// but `show` saves it.
pub fn handle_command(config: &mut Config, cmd: &ConfigCommands) -> (saves: bool)
    requires
        old(config).wf(),
        !(cmd is Doctor),
    ensures
        final(config).wf(),
        saves == !(cmd is Show),
        match cmd {
            ConfigCommands::SetDefault { device } => {
                &&& final(config).default_device.deep_view() == Some(device@)
                &&& final(config).local_os == old(config).local_os
                &&& final(config).aliases == old(config).aliases
                &&& final(config).users == old(config).users
                &&& final(config).os_overrides == old(config).os_overrides
                &&& final(config).device_ips == old(config).device_ips
            },
            ConfigCommands::Alias { name, device } => {
                &&& final(config).aliases@ == old(config).aliases@.insert(name@, device@)
                &&& final(config).default_device == old(config).default_device
                &&& final(config).local_os == old(config).local_os
                &&& final(config).users == old(config).users
                &&& final(config).os_overrides == old(config).os_overrides
                &&& final(config).device_ips == old(config).device_ips
            },
            ConfigCommands::SetUser { device, user } => {
                &&& final(config).users@ == old(config).users@.insert(device@, user@)
                &&& final(config).default_device == old(config).default_device
                &&& final(config).local_os == old(config).local_os
                &&& final(config).aliases == old(config).aliases
                &&& final(config).os_overrides == old(config).os_overrides
                &&& final(config).device_ips == old(config).device_ips
            },
            ConfigCommands::SetOs { device, os } => {
                &&& device@ == "local"@ ==> final(config).local_os.deep_view() == Some(os@)
                    && final(config).os_overrides == old(config).os_overrides
                &&& device@ != "local"@ ==> final(config).os_overrides@ == old(
                    config,
                ).os_overrides@.insert(device@, os@) && final(config).local_os == old(
                    config,
                ).local_os
                &&& final(config).default_device == old(config).default_device
                &&& final(config).aliases == old(config).aliases
                &&& final(config).users == old(config).users
                &&& final(config).device_ips == old(config).device_ips
            },
            _ => *final(config) == *old(config),
        },
{
    match cmd {
        ConfigCommands::SetDefault { device } => {
            config.default_device = Some(device.clone());
            true
        },
        ConfigCommands::Alias { name, device } => {
            config.aliases.insert(name.clone(), device.clone());
            true
        },
        ConfigCommands::SetUser { device, user } => {
            config.users.insert(device.clone(), user.clone());
            true
        },
        ConfigCommands::SetOs { device, os } => {
            if str_eq(device.as_str(), "local") {
                config.local_os = Some(os.clone());
            } else {
                config.os_overrides.insert(device.clone(), os.clone());
            }
            true
        },
        _ => false,
    }
}

// ---------------------------------------------------------------------------
// Resolving the device a command names
// ---------------------------------------------------------------------------

/// Why a device name could not be resolved.
#[derive(Debug, PartialEq, Eq)]
pub enum ResolveError {
    /// "default" was asked for and no default device is set.
    NoDefaultDevice,
}

/// The device query a command's device argument stands for: an alias's
/// target, the default device for "default", or the argument itself.
/// `None` when "default" is asked for and there is none.
pub open spec fn resolved_query(config: Option<Config>, device: Seq<char>) -> Option<Seq<char>> {
    match config {
        Some(c) => if c.aliases@.dom().contains(device) {
            Some(c.aliases@[device])
        } else if device == "default"@ {
            c.default_device.deep_view()
        } else {
            Some(device)
        },
        None => if device == "default"@ {
            None
        } else {
            Some(device)
        },
    }
}

/// Resolves a command's device argument to the name to look up on the
/// tailnet. An alias wins over the word "default".
pub fn resolve_query(config: &Option<Config>, device: &str) -> (r: Result<String, ResolveError>)
    requires
        config matches Some(c) ==> c.wf(),
    ensures
        match r {
            Ok(q) => resolved_query(*config, device@) == Some(q@),
            Err(_) => resolved_query(*config, device@) is None,
        },
{
    let is_default = str_eq(device, "default");
    match config {
        Some(cfg) => {
            match cfg.aliases.get(device) {
                Some(alias) => Ok(alias.clone()),
                None => {
                    if is_default {
                        match &cfg.default_device {
                            Some(d) => Ok(d.clone()),
                            None => Err(ResolveError::NoDefaultDevice),
                        }
                    } else {
                        Ok(device.to_owned())
                    }
                },
            }
        },
        None => {
            if is_default {
                Err(ResolveError::NoDefaultDevice)
            } else {
                Ok(device.to_owned())
            }
        },
    }
}

// ---------------------------------------------------------------------------
// Laws
// ---------------------------------------------------------------------------

/// Backfilling never overwrites an IP that is already recorded.
pub proof fn law_backfill_keeps_recorded_ips(c: Config, ds: Seq<Device>, name: Seq<char>)
    requires
        c.device_ips@.dom().contains(name),
    ensures
        c.device_ips@.union_prefer_right(backfilled(c, ds)).dom().contains(name),
        c.device_ips@.union_prefer_right(backfilled(c, ds))[name] == c.device_ips@[name],
{
}

/// Backfilling twice records nothing the second time: every referenced
/// name that matches a device has an IP after the first run.
pub proof fn law_backfill_idempotent(c: Config, after: Config, ds: Seq<Device>)
    requires
        after.default_device == c.default_device,
        after.aliases == c.aliases,
        after.users == c.users,
        after.os_overrides == c.os_overrides,
        after.device_ips@ == c.device_ips@.union_prefer_right(backfilled(c, ds)),
    ensures
        backfilled(after, ds).dom() == Set::<Seq<char>>::empty(),
{
    assert(referenced_names(after) == referenced_names(c));
    assert(backfilled(after, ds).dom() =~= Set::<Seq<char>>::empty());
}

/// A stale name gets the same suggestions once backfilled IPs are added:
/// backfilling only records IPs for names that match a device, and a stale
/// name matches none.
proof fn lemma_backfill_keeps_suggestions(c: Config, after: Config, ds: Seq<Device>, name: Seq<char>)
    requires
        after.device_ips@ == c.device_ips@.union_prefer_right(backfilled(c, ds)),
        is_stale(ds, name),
    ensures
        suggestions_for(after, ds, name) == suggestions_for(c, ds, name),
{
    assert(!backfilled(c, ds).dom().contains(name));
    assert(after.device_ips@.dom().contains(name) == c.device_ips@.dom().contains(name));
    if c.device_ips@.dom().contains(name) {
        assert(after.device_ips@[name] == c.device_ips@[name]);
    }
}

proof fn lemma_backfill_keeps_stale_keys(
    c: Config,
    after: Config,
    ds: Seq<Device>,
    keys: Seq<Seq<char>>,
    section: Seq<char>,
)
    requires
        after.device_ips@ == c.device_ips@.union_prefer_right(backfilled(c, ds)),
    ensures
        stale_keys(after, ds, keys, section) == stale_keys(c, ds, keys, section),
    decreases keys.len(),
{
    if keys.len() > 0 {
        lemma_backfill_keeps_stale_keys(c, after, ds, keys.drop_last(), section);
        if is_stale(ds, keys.last()) {
            lemma_backfill_keeps_suggestions(c, after, ds, keys.last());
        }
        assert(stale_if(after, ds, section, keys.last()) == stale_if(c, ds, section, keys.last()));
    }
}

proof fn lemma_backfill_keeps_stale_aliases(
    c: Config,
    after: Config,
    ds: Seq<Device>,
    ps: Seq<(Seq<char>, Seq<char>)>,
)
    requires
        after.device_ips@ == c.device_ips@.union_prefer_right(backfilled(c, ds)),
    ensures
        stale_aliases(after, ds, ps) == stale_aliases(c, ds, ps),
    decreases ps.len(),
{
    if ps.len() > 0 {
        lemma_backfill_keeps_stale_aliases(c, after, ds, ps.drop_last());
        if is_stale(ds, ps.last().1) {
            lemma_backfill_keeps_suggestions(c, after, ds, ps.last().1);
        }
        assert(stale_if(after, ds, "aliases."@ + ps.last().0, ps.last().1) == stale_if(
            c,
            ds,
            "aliases."@ + ps.last().0,
            ps.last().1,
        ));
    }
}

/// Backfilling device IPs changes no stale entry and no suggestion: the
/// configuration after backfilling has exactly the stale entries it had
/// before, so a dry run, which does not backfill, finds what the real run
/// finds.
pub proof fn law_backfill_keeps_stale_entries(c: Config, after: Config, ds: Seq<Device>)
    requires
        after.default_device == c.default_device,
        after.aliases == c.aliases,
        after.users == c.users,
        after.os_overrides == c.os_overrides,
        after.device_ips@ == c.device_ips@.union_prefer_right(backfilled(c, ds)),
    ensures
        stale_entries(after, ds) == stale_entries(c, ds),
{
    lemma_backfill_keeps_stale_keys(c, after, ds, opt_seq(c.default_device), "default_device"@);
    lemma_backfill_keeps_stale_aliases(c, after, ds, c.aliases.pairs());
    lemma_backfill_keeps_stale_keys(c, after, ds, c.users.key_seq(), "users"@);
    lemma_backfill_keeps_stale_keys(c, after, ds, c.os_overrides.key_seq(), "os_overrides"@);
}

/// Renaming a device to its own name leaves every table as it was.
pub proof fn law_rename_to_same_name_changes_nothing(before: Config, after: Config, name: Seq<char>)
    requires
        before.wf(),
        is_renamed(before, after, name, name),
    ensures
        after.default_device.deep_view() == before.default_device.deep_view(),
        after.aliases@ == before.aliases@,
        after.users@ == before.users@,
        after.os_overrides@ == before.os_overrides@,
        after.device_ips@ == before.device_ips@,
{
    assert(after.aliases@ =~= before.aliases@);
    assert(after.users@ =~= before.users@);
    assert(after.os_overrides@ =~= before.os_overrides@);
    assert(after.device_ips@ =~= before.device_ips@);
}

/// After renaming `old` to another name, the configuration no longer
/// refers to `old` anywhere.
pub proof fn law_rename_leaves_no_old_name(
    before: Config,
    after: Config,
    old: Seq<char>,
    new: Seq<char>,
)
    requires
        old != new,
        is_renamed(before, after, old, new),
    ensures
        !refers_to(after, old),
{
    if alias_targets(after.aliases@, old) {
        let k = choose|k: Seq<char>| after.aliases@.dom().contains(k) && #[trigger] after.aliases@[k]
            == old;
        assert(after.aliases@[k] == swap_value(before.aliases@[k], old, new));
    }
}

/// Renaming `old` to `new` and back restores the configuration, when it
/// did not refer to `new` before.
pub proof fn law_rename_round_trip(
    before: Config,
    middle: Config,
    after: Config,
    old: Seq<char>,
    new: Seq<char>,
)
    requires
        !refers_to(before, new),
        is_renamed(before, middle, old, new),
        is_renamed(middle, after, new, old),
    ensures
        after.default_device.deep_view() == before.default_device.deep_view(),
        after.aliases@ == before.aliases@,
        after.users@ == before.users@,
        after.os_overrides@ == before.os_overrides@,
        after.device_ips@ == before.device_ips@,
{
    assert forall|k: Seq<char>| before.aliases@.dom().contains(k) implies before.aliases@[k] != new by {
        if before.aliases@[k] == new {
            assert(alias_targets(before.aliases@, new));
        }
    }
    assert(after.aliases@ =~= before.aliases@);
    assert(after.users@ =~= before.users@);
    assert(after.os_overrides@ =~= before.os_overrides@);
    assert(after.device_ips@ =~= before.device_ips@);
}

/// Resolving "default" gives the configured default device, unless an
/// alias named "default" wins; with no default device, or no configuration,
/// it resolves to nothing. Any other name resolves to its alias target, or
/// to itself when it is no alias.
pub proof fn law_resolve_default_gives_default_device(config: Option<Config>, device: Seq<char>)
    ensures
        (config matches Some(c) && !c.aliases@.dom().contains("default"@) && c.default_device
            is Some) ==> resolved_query(config, "default"@) == Some(
            config->0.default_device->0@,
        ),
        (config matches Some(c) && !c.aliases@.dom().contains("default"@) && c.default_device
            is None) ==> resolved_query(config, "default"@) is None,
        config is None ==> resolved_query(config, "default"@) is None,
        (config matches Some(c) && c.aliases@.dom().contains(device)) ==> resolved_query(
            config,
            device,
        ) == Some(config->0.aliases@[device]),
        (device != "default"@ && match config {
            Some(c) => !c.aliases@.dom().contains(device),
            None => true,
        }) ==> resolved_query(config, device) == Some(device),
{
}

/// Backfilling records an IP for every name the configuration refers to,
/// whichever section refers to it (the default device, an alias target, a
/// user key or an OS override key), when the name has no IP yet and some
/// device's short name matches it ignoring ASCII case: the IP recorded is
/// that of the first such device, and no device after `j` is taken when
/// device `j` matches.
pub proof fn law_backfill_covers_referenced_names(c: Config, ds: Seq<Device>, name: Seq<char>, j: int)
    requires
        c.wf(),
        c.default_device.deep_view() == Some(name) || alias_targets(c.aliases@, name)
            || c.users@.dom().contains(name) || c.os_overrides@.dom().contains(name),
        !c.device_ips@.dom().contains(name),
        0 <= j < ds.len(),
        eq_ascii_ci(ds[j].short_name@, name),
    ensures
        backfilled(c, ds).dom().contains(name),
        c.device_ips@.union_prefer_right(backfilled(c, ds)).dom().contains(name),
        exists|i: int|
            0 <= i <= j && eq_ascii_ci(ds[i].short_name@, name) && backfilled(c, ds)[name]
                == #[trigger] ds[i].ip@ && forall|m: int|
                0 <= m < i ==> !eq_ascii_ci(#[trigger] ds[m].short_name@, name),
{
    let rn = referenced_names(c);
    let a = opt_seq(c.default_device);
    let b = c.aliases.value_seq();
    let u = c.users.key_seq();
    let o = c.os_overrides.key_seq();
    assert(rn == a + b + u + o);
    c.aliases.lemma_view();
    c.users.lemma_view();
    c.os_overrides.lemma_view();
    assert(rn.contains(name)) by {
        if c.default_device.deep_view() == Some(name) {
            assert(a[0] == name);
            assert(rn[0] == a[0]);
        } else if alias_targets(c.aliases@, name) {
            let k = choose|k: Seq<char>| c.aliases@.dom().contains(k) && #[trigger] c.aliases@[k]
                == name;
            let i = choose|i: int| 0 <= i < c.aliases.pairs().len() && #[trigger] c.aliases.pairs()[i].0
                == k;
            assert(b[i] == name);
            assert(rn[a.len() + i] == b[i]);
        } else if c.users@.dom().contains(name) {
            let i = choose|i: int| 0 <= i < c.users.pairs().len() && #[trigger] c.users.pairs()[i].0
                == name;
            assert(u[i] == name);
            assert(rn[a.len() + b.len() + i] == u[i]);
        } else {
            let i = choose|i: int|
                0 <= i < c.os_overrides.pairs().len() && #[trigger] c.os_overrides.pairs()[i].0
                    == name;
            assert(o[i] == name);
            assert(rn[a.len() + b.len() + u.len() + i] == o[i]);
        }
    }
    lemma_first_short_name_match(ds, name, 0);
    let f = first_short_name_match(ds, name, 0);
    if f is None {
        assert(!eq_ascii_ci(ds[j].short_name@, name));
    }
    let i = f->0;
    assert(i <= j) by {
        if i > j {
            assert(!eq_ascii_ci(ds[j].short_name@, name));
        }
    }
    assert(backfilled(c, ds)[name] == ds[i].ip@);
}

/// Two names are similar or not whichever is taken as the stale name: the
/// test looks both ways.
pub proof fn law_similar_names_symmetric(a: Seq<char>, b: Seq<char>)
    ensures
        similar_names(a, b) == similar_names(b, a),
{
}

proof fn lemma_similar_device_listed(ds: Seq<Device>, nl: Seq<char>, j: int)
    requires
        0 <= j < ds.len(),
        similar_names(nl, unicode_lowercase(ds[j].short_name@)),
    ensures
        similar_devices(ds, nl).contains(ds[j].short_name@),
    decreases ds.len(),
{
    let init = ds.drop_last();
    let tail = if similar_names(nl, unicode_lowercase(ds.last().short_name@)) {
        seq![ds.last().short_name@]
    } else {
        Seq::<Seq<char>>::empty()
    };
    assert(similar_devices(ds, nl) == similar_devices(init, nl) + tail);
    if j == ds.len() - 1 {
        assert(tail[0] == ds[j].short_name@);
        assert((similar_devices(init, nl) + tail)[similar_devices(init, nl).len() as int]
            == ds[j].short_name@);
    } else {
        assert(init[j] == ds[j]);
        lemma_similar_device_listed(init, nl, j);
        let k = choose|k: int| 0 <= k < similar_devices(init, nl).len() && similar_devices(
            init,
            nl,
        )[k] == ds[j].short_name@;
        assert((similar_devices(init, nl) + tail)[k] == ds[j].short_name@);
    }
}

/// A stale name with no recorded IP is offered every device whose name is
/// similar to it: where a `-`-separated piece of at least three bytes of the
/// device's lowercased short name occurs in the lowercased stale name, or a
/// piece of the stale name occurs in the device's short name.
pub proof fn law_similar_device_suggested(c: Config, ds: Seq<Device>, name: Seq<char>, j: int, k: int)
    requires
        !c.device_ips@.dom().contains(name),
        0 <= j < ds.len(),
        ({
            let nl = unicode_lowercase(name);
            let sl = unicode_lowercase(ds[j].short_name@);
            ||| (0 <= k < split_by(sl, '-').len() && byte_len(split_by(sl, '-')[k]) >= 3
                && has_infix(nl, split_by(sl, '-')[k]))
            ||| (0 <= k < split_by(nl, '-').len() && byte_len(split_by(nl, '-')[k]) >= 3
                && has_infix(sl, split_by(nl, '-')[k]))
        }),
    ensures
        suggestions_for(c, ds, name).contains(ds[j].short_name@),
{
    let nl = unicode_lowercase(name);
    let sl = unicode_lowercase(ds[j].short_name@);
    if 0 <= k < split_by(sl, '-').len() && byte_len(split_by(sl, '-')[k]) >= 3 && has_infix(
        nl,
        split_by(sl, '-')[k],
    ) {
        assert(any_part_within(split_by(sl, '-'), nl));
    } else {
        assert(any_part_within(split_by(nl, '-'), sl));
    }
    lemma_similar_device_listed(ds, nl, j);
}

} // verus!
