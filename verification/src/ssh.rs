//! SSH targets and the SSH client configuration entries tailshare writes.

use vstd::prelude::*;
use crate::config::Config;
use crate::tailscale::Device;
use crate::text::{
    append_chars, chars_of, contains, has_infix, is_single_line,
    lemma_lines_after_line, endings_after, ending_of, newline_endings, rejoined,
    lines_after, push_str, strip_cr, string_of, views,
};

verus! {

/// The host part of a device's SSH target: its short name, else its DNS
/// name, else its IP.
pub open spec fn target_host(d: Device) -> Seq<char> {
    if d.short_name@.len() > 0 {
        d.short_name@
    } else if d.dns_name@.len() > 0 {
        d.dns_name@
    } else {
        d.ip@
    }
}

/// The SSH target of a device: `user@host` when the configuration names
/// an SSH user for the device's short name, else the host alone.
pub open spec fn target_of(d: Device, config: Option<Config>) -> Seq<char> {
    match config {
        Some(c) => if c.users@.dom().contains(d.short_name@) {
            c.users@[d.short_name@] + "@"@ + target_host(d)
        } else {
            target_host(d)
        },
        None => target_host(d),
    }
}

/// The SSH target for a device. The user is looked up by the device's
/// short name, the stable kebab-case identifier.
pub fn ssh_target(device: &Device, config: &Option<Config>) -> (r: String)
    requires
        config matches Some(c) ==> c.wf(),
    ensures
        r@ == target_of(*device, *config),
{
    let host: &String = if !device.short_name.as_str().is_empty() {
        &device.short_name
    } else if !device.dns_name.as_str().is_empty() {
        &device.dns_name
    } else {
        &device.ip
    };
    if let Some(cfg) = config {
        if let Some(user) = cfg.users.get(device.short_name.as_str()) {
            let mut out = chars_of(user.as_str());
            push_str(&mut out, "@");
            push_str(&mut out, host.as_str());
            return string_of(&out);
        }
    }
    host.clone()
}

/// The name of the key file tailshare uses for a device.
pub fn ssh_key_name(short_name: &str) -> (r: String)
    ensures
        r@ == "tailshare_"@ + short_name@,
{
    let mut out = chars_of("tailshare_");
    push_str(&mut out, short_name);
    string_of(&out)
}

/// The lines of the SSH configuration entry that setup appends for a host:
/// an empty line, the tailshare marker, the `Host` line, the `User` option
/// when a user is configured, and the options naming the host, the key and
/// the connection sharing settings.
pub open spec fn entry_lines(host: Seq<char>, user: Option<Seq<char>>, key_path: Seq<char>) -> Seq<Seq<char>> {
    seq![seq![], "# Added by tailshare"@, "Host "@ + host] + match user {
        Some(u) => seq!["    User "@ + u],
        None => seq![],
    } + seq![
        "    HostName "@ + host,
        "    IdentityFile "@ + key_path,
        "    ControlMaster auto"@,
        "    ControlPath ~/.ssh/sockets/%r@%h-%p"@,
        "    ControlPersist 600"@,
    ]
}

/// The lines, each followed by a newline.
pub open spec fn with_newlines(ls: Seq<Seq<char>>) -> Seq<char>
    decreases ls.len(),
{
    if ls.len() == 0 {
        seq![]
    } else {
        with_newlines(ls.drop_last()) + ls.last() + seq!['\n']
    }
}

/// The first line, its newline, and then the other lines.
pub proof fn lemma_with_newlines_front(ls: Seq<Seq<char>>)
    requires
        ls.len() > 0,
    ensures
        with_newlines(ls) == ls[0] + seq!['\n'] + with_newlines(ls.drop_first()),
    decreases ls.len(),
{
    if ls.len() == 1 {
        assert(ls.drop_last() =~= Seq::<Seq<char>>::empty());
        assert(ls.drop_first() =~= Seq::<Seq<char>>::empty());
        assert(with_newlines(ls.drop_last()) == Seq::<char>::empty());
        assert(ls.last() == ls[0]);
        assert(with_newlines(ls) =~= ls[0] + seq!['\n']);
        assert(ls[0] + seq!['\n'] + Seq::<char>::empty() =~= ls[0] + seq!['\n']);
    } else {
        let init = ls.drop_last();
        lemma_with_newlines_front(init);
        assert(init.drop_first() =~= ls.drop_first().drop_last());
        assert(ls.drop_first().last() == ls.last());
        assert(init[0] == ls[0]);
        assert(with_newlines(ls) =~= ls[0] + seq!['\n'] + with_newlines(ls.drop_first()));
    }
}

/// Lines written out each with a newline, then more text: reading them
/// back gives the same lines, then the lines of that text.
pub proof fn lemma_lines_with_tail(ls: Seq<Seq<char>>, tail: Seq<char>)
    requires
        forall|t: int| 0 <= t < ls.len() ==> is_single_line(#[trigger] ls[t]),
    ensures
        lines_after(with_newlines(ls) + tail, seq![]) == ls + lines_after(tail, seq![]),
    decreases ls.len(),
{
    if ls.len() == 0 {
        assert(with_newlines(ls) + tail =~= tail);
        assert(ls + lines_after(tail, seq![]) =~= lines_after(tail, seq![]));
    } else {
        let rest = ls.drop_first();
        lemma_with_newlines_front(ls);
        assert(is_single_line(ls[0]));
        assert(with_newlines(ls) + tail =~= ls[0] + seq!['\n'] + (with_newlines(rest) + tail));
        lemma_lines_after_line(ls[0], with_newlines(rest) + tail, seq![]);
        assert(Seq::<char>::empty() + ls[0] =~= ls[0]);
        assert(strip_cr(ls[0]) == ls[0]);
        assert forall|t: int| 0 <= t < rest.len() implies is_single_line(#[trigger] rest[t]) by {
            assert(rest[t] == ls[t + 1]);
        }
        lemma_lines_with_tail(rest, tail);
        assert(seq![ls[0]] + (rest + lines_after(tail, seq![])) =~= ls + lines_after(
            tail,
            seq![],
        ));
    }
}

/// Lines written out each with a newline read back as the same lines.
pub proof fn lemma_lines_of_with_newlines(ls: Seq<Seq<char>>)
    requires
        forall|t: int| 0 <= t < ls.len() ==> is_single_line(#[trigger] ls[t]),
    ensures
        lines_after(with_newlines(ls), seq![]) == ls,
{
    lemma_lines_with_tail(ls, seq![]);
    assert(with_newlines(ls) + Seq::<char>::empty() =~= with_newlines(ls));
    assert(ls + Seq::<Seq<char>>::empty() =~= ls);
}

/// Lines written out each with a newline have `\n` as every ending.
pub proof fn lemma_endings_with_newlines(ls: Seq<Seq<char>>)
    requires
        forall|t: int| 0 <= t < ls.len() ==> is_single_line(#[trigger] ls[t]),
    ensures
        endings_after(with_newlines(ls), seq![]) == newline_endings(ls.len()),
    decreases ls.len(),
{
    if ls.len() == 0 {
        assert(endings_after(with_newlines(ls), seq![]) =~= newline_endings(ls.len()));
    } else {
        let rest = ls.drop_first();
        lemma_with_newlines_front(ls);
        assert(is_single_line(ls[0]));
        assert(with_newlines(ls) =~= ls[0] + seq!['\n'] + with_newlines(rest));
        lemma_lines_after_line(ls[0], with_newlines(rest), seq![]);
        assert(Seq::<char>::empty() + ls[0] =~= ls[0]);
        assert(ending_of(ls[0]) == seq!['\n']);
        assert forall|t: int| 0 <= t < rest.len() implies is_single_line(#[trigger] rest[t]) by {
            assert(rest[t] == ls[t + 1]);
        }
        lemma_endings_with_newlines(rest);
        assert(seq![seq!['\n']] + newline_endings(rest.len()) =~= newline_endings(ls.len()));
    }
}

/// Lines each followed by `\n` are the lines written out with newlines.
pub proof fn lemma_rejoined_newlines(ls: Seq<Seq<char>>)
    ensures
        rejoined(ls, newline_endings(ls.len())) == with_newlines(ls),
    decreases ls.len(),
{
    if ls.len() == 0 {
        assert(with_newlines(ls) == Seq::<char>::empty());
    } else {
        lemma_with_newlines_front(ls);
        lemma_rejoined_newlines(ls.drop_first());
        assert(newline_endings(ls.len()).drop_first() =~= newline_endings(ls.drop_first().len()));
        assert(newline_endings(ls.len())[0] == seq!['\n']);
    }
}

/// The SSH configuration entry that setup appends for a host.
pub open spec fn config_entry(host: Seq<char>, user: Option<Seq<char>>, key_path: Seq<char>) -> Seq<char> {
    with_newlines(entry_lines(host, user, key_path))
}

/// A line made of a literal followed by a name.
fn literal_then(lit: &str, name: &str) -> (r: Vec<char>)
    ensures
        r@ == lit@ + name@,
{
    let mut out = chars_of(lit);
    push_str(&mut out, name);
    out
}

/// The SSH configuration entry for a host, marked as written by tailshare.
pub fn ssh_config_entry(host: &str, user: Option<&str>, key_path: &str) -> (r: String)
    ensures
        r@ == config_entry(
            host@,
            match user {
                Some(u) => Some(u@),
                None => None,
            },
            key_path@,
        ),
{
    let ghost uv = match user {
        Some(u) => Some(u@),
        None => None,
    };
    let mut lines: Vec<Vec<char>> = Vec::new();
    lines.push(Vec::new());
    lines.push(chars_of("# Added by tailshare"));
    lines.push(literal_then("Host ", host));
    match user {
        Some(u) => lines.push(literal_then("    User ", u)),
        None => {},
    }
    lines.push(literal_then("    HostName ", host));
    lines.push(literal_then("    IdentityFile ", key_path));
    lines.push(chars_of("    ControlMaster auto"));
    lines.push(chars_of("    ControlPath ~/.ssh/sockets/%r@%h-%p"));
    lines.push(chars_of("    ControlPersist 600"));
    let ghost want = entry_lines(host@, uv, key_path@);
    assert(views(lines@) =~= want);
    let mut out: Vec<char> = Vec::new();
    let mut i: usize = 0;
    assert(want.take(0) =~= Seq::<Seq<char>>::empty());
    while i < lines.len()
        invariant
            i <= lines.len(),
            views(lines@) == want,
            out@ == with_newlines(want.take(i as int)),
        decreases lines.len() - i,
    {
        assert(want.take(i + 1).drop_last() =~= want.take(i as int));
        assert(want[i as int] == lines@[i as int]@);
        append_chars(&mut out, &lines[i]);
        out.push('\n');
        i = i + 1;
    }
    assert(want.take(i as int) =~= want);
    string_of(&out)
}

/// Whether the SSH configuration already has an entry for `host`: some
/// text `Host <host>` occurs in it.
pub fn has_host_entry(existing: &str, host: &str) -> (r: bool)
    ensures
        r == has_infix(existing@, "Host "@ + host@),
{
    let cs = chars_of(existing);
    let mut pat = chars_of("Host ");
    push_str(&mut pat, host);
    contains(&cs, &pat)
}

/// Whether an SSH error output reports failed authentication.
pub fn is_auth_failure(stderr: &str) -> (r: bool)
    ensures
        r == has_infix(stderr@, "Permission denied"@),
{
    let cs = chars_of(stderr);
    let pat = chars_of("Permission denied");
    contains(&cs, &pat)
}

} // verus!
