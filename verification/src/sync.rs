//! Renaming devices in the SSH client configuration.
//!
//! Only blocks that tailshare itself wrote are touched: a block begins with a
//! line that reads `# Added by tailshare` (after trimming) directly followed by
//! a `Host <name>` line.

use vstd::prelude::*;
use crate::config::{
    alias_targets, backfilled, is_renamed, law_backfill_keeps_stale_entries, refers_to, stale_entries,
    Config, StaleEntry, StaleView, stale_views,
};
use crate::tailscale::Device;
use crate::ssh::{
    config_entry, entry_lines, with_newlines, lemma_with_newlines_front, lemma_endings_with_newlines,
    lemma_rejoined_newlines,
    lemma_lines_of_with_newlines,
};
use crate::text::{
    is_single_line, is_whitespace, lemma_replaced_after, lemma_single_line_concat,
    lemma_trimmed_end_prefix, lemma_trimmed_start_skip, trimmed_end, trimmed_start,
    lemma_no_infix_after_literal, lemma_replaced_absent, lemma_replaced_at_end, has_infix,
    lemma_replaced_same, lemma_views_push, push_str, str_eq, string_views, lemma_string_views_push,
    append_chars, chars_of, copy_chars, has_prefix, lines_of, replace_all, replaced,
    split_lines_with_endings, rejoin_lines, rejoined, line_endings, lemma_endings_len,
    lemma_rejoin_lines, lemma_rejoined_concat, lemma_lines_concat, lemma_lines_add_newline,
    lemma_trimmed_strip_cr, newline_endings, strip_cr, starts_with, string_of, trimmed, trimmed_eq, trimmed_starts_with, views,
};

verus! {

/// The comment line that marks a block written by tailshare.
pub open spec fn marker() -> Seq<char> {
    "# Added by tailshare"@
}

/// The `Host` line for `name`.
pub open spec fn host_line(name: Seq<char>) -> Seq<char> {
    "Host "@ + name
}

/// The `HostName` option for `name`.
pub open spec fn hostname_option(name: Seq<char>) -> Seq<char> {
    "HostName "@ + name
}

/// Line `i` opens a tailshare block for `host`: it is the marker and the
/// next line is `Host <host>`, both compared after trimming.
pub open spec fn opens_block(ls: Seq<Seq<char>>, i: int, host: Seq<char>) -> bool {
    &&& 0 <= i < ls.len()
    &&& trimmed(ls[i]) == marker()
    &&& i + 1 < ls.len()
    &&& trimmed(ls[i + 1]) == host_line(host)
}

/// The line is indented by four spaces or a tab.
pub open spec fn is_indented(l: Seq<char>) -> bool {
    has_prefix(l, "    "@) || has_prefix(l, "\t"@)
}

/// An option line of a renamed block: a `HostName` option has
/// `HostName <old>` replaced by `HostName <new>`; others stay.
pub open spec fn renamed_option(l: Seq<char>, old: Seq<char>, new: Seq<char>) -> Seq<char> {
    if has_prefix(trimmed(l), "HostName"@) {
        replaced(l, hostname_option(old), hostname_option(new))
    } else {
        l
    }
}

/// The lines from `i` on with each tailshare block for `old` renamed to
/// `new`.
pub open spec fn renamed_from(ls: Seq<Seq<char>>, i: int, old: Seq<char>, new: Seq<char>) -> Seq<
    Seq<char>,
>
    decreases ls.len() - i, 0int,
{
    if i < 0 || i >= ls.len() {
        seq![]
    } else if opens_block(ls, i, old) {
        seq![ls[i], replaced(ls[i + 1], host_line(old), host_line(new))] + renamed_block(
            ls,
            i + 2,
            old,
            new,
        )
    } else {
        seq![ls[i]] + renamed_from(ls, i + 1, old, new)
    }
}

/// The lines from `j` on, where `j` is inside a block being renamed: the
/// block goes on over indented lines and ends after an empty line or before
/// a line that is neither.
pub open spec fn renamed_block(ls: Seq<Seq<char>>, j: int, old: Seq<char>, new: Seq<char>) -> Seq<
    Seq<char>,
>
    decreases ls.len() - j, 1int,
{
    if j < 0 || j >= ls.len() {
        seq![]
    } else if ls[j].len() == 0 {
        seq![seq![]] + renamed_from(ls, j + 1, old, new)
    } else if is_indented(ls[j]) {
        seq![renamed_option(ls[j], old, new)] + renamed_block(ls, j + 1, old, new)
    } else {
        renamed_from(ls, j, old, new)
    }
}

/// The SSH configuration `content` with the tailshare block for `old`
/// renamed to `new`; every line keeps its own line ending.
pub open spec fn renamed_config(content: Seq<char>, old: Seq<char>, new: Seq<char>) -> Seq<char> {
    rejoined(renamed_from(lines_of(content), 0, old, new), line_endings(content))
}

/// The lines from `i` on with `old` replaced by `new` in each line of a
/// tailshare block for `host`.
pub open spec fn replaced_from(
    ls: Seq<Seq<char>>,
    i: int,
    host: Seq<char>,
    old: Seq<char>,
    new: Seq<char>,
) -> Seq<Seq<char>>
    decreases ls.len() - i, 0int,
{
    if i < 0 || i >= ls.len() {
        seq![]
    } else if opens_block(ls, i, host) {
        seq![ls[i]] + replaced_block(ls, i + 1, host, old, new)
    } else {
        seq![ls[i]] + replaced_from(ls, i + 1, host, old, new)
    }
}

/// The lines from `j` on, where `j` is inside a block: the block, its
/// `Host` line included, goes on until an empty line.
pub open spec fn replaced_block(
    ls: Seq<Seq<char>>,
    j: int,
    host: Seq<char>,
    old: Seq<char>,
    new: Seq<char>,
) -> Seq<Seq<char>>
    decreases ls.len() - j, 1int,
{
    if j < 0 || j >= ls.len() {
        seq![]
    } else if ls[j].len() == 0 {
        seq![seq![]] + replaced_from(ls, j + 1, host, old, new)
    } else {
        seq![replaced(ls[j], old, new)] + replaced_block(ls, j + 1, host, old, new)
    }
}

/// The SSH configuration `content` with `old` replaced by `new` inside the
/// tailshare block for `host` only; every line keeps its own line ending.
pub open spec fn replaced_in_blocks(
    content: Seq<char>,
    host: Seq<char>,
    old: Seq<char>,
    new: Seq<char>,
) -> Seq<char> {
    rejoined(replaced_from(lines_of(content), 0, host, old, new), line_endings(content))
}

/// The characters of `lit` followed by those of `name`.
fn prefixed(lit: &str, name: &str) -> (r: Vec<char>)
    ensures
        r@ == lit@ + name@,
{
    let mut r = chars_of(lit);
    let n = chars_of(name);
    append_chars(&mut r, &n);
    r
}

/// Renames a tailshare-managed `Host` block in an SSH configuration.
/// Only blocks preceded by `# Added by tailshare` are touched; every line
/// keeps its line ending, so a configuration without such a block comes
/// back unchanged.
pub fn rename_ssh_config_entry(content: &str, old_name: &str, new_name: &str) -> (r: String)
    ensures
        r@ == renamed_config(content@, old_name@, new_name@),
{
    let cs = chars_of(content);
    let (ls, endings) = split_lines_with_endings(&cs);
    let mark = chars_of("# Added by tailshare");
    let host_old = prefixed("Host ", old_name);
    let host_new = prefixed("Host ", new_name);
    let hn_old = prefixed("HostName ", old_name);
    let hn_new = prefixed("HostName ", new_name);
    let keyword = chars_of("HostName");
    let spaces = chars_of("    ");
    let tab = chars_of("\t");
    let ghost lv = views(ls@);
    let ghost o = old_name@;
    let ghost n = new_name@;
    let ghost total = renamed_from(lv, 0, o, n);
    let mut result: Vec<Vec<char>> = Vec::new();
    let mut i: usize = 0;
    assert(views(result@) =~= Seq::<Seq<char>>::empty());
    while i < ls.len()
        invariant
            i <= ls.len(),
            lv == views(ls@),
            lv.len() == ls@.len(),
            total == renamed_from(lv, 0, o, n),
            mark@ == marker(),
            host_old@ == host_line(o),
            host_new@ == host_line(n),
            hn_old@ == hostname_option(o),
            hn_new@ == hostname_option(n),
            keyword@ == "HostName"@,
            spaces@ == "    "@,
            tab@ == "\t"@,
            views(result@) + renamed_from(lv, i as int, o, n) == total,
        decreases ls.len() - i,
    {
        let ghost before = views(result@);
        let ghost i0 = i;
        assert(lv[i as int] == ls@[i as int]@);
        if trimmed_eq(&ls[i], &mark) && i + 1 < ls.len() && trimmed_eq(&ls[i + 1], &host_old) {
            assert(lv[i + 1] == ls@[i + 1]@);
            assert(opens_block(lv, i as int, o));
            let first = copy_chars(&ls[i]);
            let second = replace_all(&ls[i + 1], &host_old, &host_new);
            proof {
                lemma_views_push(result@, first);
            }
            result.push(first);
            proof {
                lemma_views_push(result@, second);
            }
            result.push(second);
            i = i + 2;
            assert(views(result@) + renamed_block(lv, i as int, o, n) =~= before + renamed_from(
                lv,
                i - 2,
                o,
                n,
            ));
            while i < ls.len() && (starts_with(&ls[i], &spaces) || starts_with(&ls[i], &tab)
                || ls[i].len() == 0)
                invariant_except_break
                    views(result@) + renamed_block(lv, i as int, o, n) == total,
                invariant
                    2 <= i <= ls.len(),
                    i0 < i,
                    lv == views(ls@),
                    lv.len() == ls@.len(),
                    total == renamed_from(lv, 0, o, n),
                    mark@ == marker(),
                    host_old@ == host_line(o),
                    host_new@ == host_line(n),
                    hn_old@ == hostname_option(o),
                    hn_new@ == hostname_option(n),
                    keyword@ == "HostName"@,
                    spaces@ == "    "@,
                    tab@ == "\t"@,
                ensures
                    views(result@) + renamed_from(lv, i as int, o, n) == total,
                decreases ls.len() - i,
            {
                let ghost b2 = views(result@);
                assert(lv[i as int] == ls@[i as int]@);
                if ls[i].len() == 0 {
                    let empty: Vec<char> = Vec::new();
                    proof {
                        lemma_views_push(result@, empty);
                    }
                    result.push(empty);
                    i = i + 1;
                    assert(views(result@) + renamed_from(lv, i as int, o, n) =~= b2
                        + renamed_block(lv, i - 1, o, n));
                    break ;
                }
                let line = if trimmed_starts_with(&ls[i], &keyword) {
                    replace_all(&ls[i], &hn_old, &hn_new)
                } else {
                    copy_chars(&ls[i])
                };
                assert(line@ == renamed_option(lv[i as int], o, n));
                proof {
                    lemma_views_push(result@, line);
                }
                result.push(line);
                i = i + 1;
                assert(views(result@) + renamed_block(lv, i as int, o, n) =~= b2 + renamed_block(
                    lv,
                    i - 1,
                    o,
                    n,
                ));
            }
        } else {
            assert(!opens_block(lv, i as int, o));
            let line = copy_chars(&ls[i]);
            proof {
                lemma_views_push(result@, line);
            }
            result.push(line);
            i = i + 1;
            assert(views(result@) + renamed_from(lv, i as int, o, n) =~= before + renamed_from(
                lv,
                i - 1,
                o,
                n,
            ));
        }
    }
    assert(views(result@) =~= total);
    proof {
        lemma_rename_line_count(lv, 0, o, n, false);
        lemma_endings_len(cs@, seq![]);
    }
    let out = rejoin_lines(&result, &endings);
    string_of(&out)
}

/// Replaces `old` with `new` only within the tailshare-managed block whose
/// `Host` line names `host_name`; every line keeps its line ending.
pub fn replace_in_tailshare_blocks(content: &str, host_name: &str, old: &str, new: &str) -> (r:
    String)
    ensures
        r@ == replaced_in_blocks(content@, host_name@, old@, new@),
{
    let cs = chars_of(content);
    let (ls, endings) = split_lines_with_endings(&cs);
    let mark = chars_of("# Added by tailshare");
    let host = prefixed("Host ", host_name);
    let old_cs = chars_of(old);
    let new_cs = chars_of(new);
    let ghost lv = views(ls@);
    let ghost h = host_name@;
    let ghost total = replaced_from(lv, 0, h, old@, new@);
    let mut result: Vec<Vec<char>> = Vec::new();
    let mut i: usize = 0;
    assert(views(result@) =~= Seq::<Seq<char>>::empty());
    while i < ls.len()
        invariant
            i <= ls.len(),
            lv == views(ls@),
            lv.len() == ls@.len(),
            total == replaced_from(lv, 0, h, old_cs@, new_cs@),
            mark@ == marker(),
            host@ == host_line(h),
            views(result@) + replaced_from(lv, i as int, h, old_cs@, new_cs@) == total,
        decreases ls.len() - i,
    {
        let ghost before = views(result@);
        let ghost i0 = i;
        assert(lv[i as int] == ls@[i as int]@);
        if trimmed_eq(&ls[i], &mark) && i + 1 < ls.len() && trimmed_eq(&ls[i + 1], &host) {
            assert(lv[i + 1] == ls@[i + 1]@);
            assert(opens_block(lv, i as int, h));
            let first = copy_chars(&ls[i]);
            proof {
                lemma_views_push(result@, first);
            }
            result.push(first);
            i = i + 1;
            assert(views(result@) + replaced_block(lv, i as int, h, old_cs@, new_cs@) =~= before
                + replaced_from(lv, i - 1, h, old_cs@, new_cs@));
            while i < ls.len()
                invariant_except_break
                    views(result@) + replaced_block(lv, i as int, h, old_cs@, new_cs@) == total,
                invariant
                    1 <= i <= ls.len(),
                    i0 < i,
                    lv == views(ls@),
                    lv.len() == ls@.len(),
                    total == replaced_from(lv, 0, h, old_cs@, new_cs@),
                    mark@ == marker(),
                    host@ == host_line(h),
                ensures
                    views(result@) + replaced_from(lv, i as int, h, old_cs@, new_cs@) == total,
                decreases ls.len() - i,
            {
                let ghost b2 = views(result@);
                assert(lv[i as int] == ls@[i as int]@);
                if ls[i].len() == 0 {
                    let empty: Vec<char> = Vec::new();
                    proof {
                        lemma_views_push(result@, empty);
                    }
                    result.push(empty);
                    i = i + 1;
                    assert(views(result@) + replaced_from(lv, i as int, h, old_cs@, new_cs@) =~= b2
                        + replaced_block(lv, i - 1, h, old_cs@, new_cs@));
                    break ;
                }
                let line = replace_all(&ls[i], &old_cs, &new_cs);
                proof {
                    lemma_views_push(result@, line);
                }
                result.push(line);
                i = i + 1;
                assert(views(result@) + replaced_block(lv, i as int, h, old_cs@, new_cs@) =~= b2
                    + replaced_block(lv, i - 1, h, old_cs@, new_cs@));
            }
        } else {
            assert(!opens_block(lv, i as int, h));
            let line = copy_chars(&ls[i]);
            proof {
                lemma_views_push(result@, line);
            }
            result.push(line);
            i = i + 1;
            assert(views(result@) + replaced_from(lv, i as int, h, old_cs@, new_cs@) =~= before
                + replaced_from(lv, i - 1, h, old_cs@, new_cs@));
        }
    }
    assert(views(result@) =~= total);
    proof {
        lemma_replace_line_count(lv, 0, h, old_cs@, new_cs@, false);
        lemma_endings_len(cs@, seq![]);
    }
    let out = rejoin_lines(&result, &endings);
    string_of(&out)
}

// ---------------------------------------------------------------------------
// Renaming a device everywhere
// ---------------------------------------------------------------------------

/// The SSH configuration after renaming `old` to `new`: the block is
/// renamed, and when the key files were moved, the key path inside the
/// renamed block follows them.
pub open spec fn planned_ssh_config(content: Seq<char>, old: Seq<char>, new: Seq<char>, keys_moved: bool) -> Seq<
    char,
> {
    let renamed = renamed_config(content, old, new);
    if keys_moved {
        replaced_in_blocks(renamed, new, "tailshare_"@ + old, "tailshare_"@ + new)
    } else {
        renamed
    }
}

/// Which of the key files of the old and new names exist.
pub struct KeyFiles {
    pub old_key: bool,
    pub new_key: bool,
    pub old_pub: bool,
    pub new_pub: bool,
}

/// What renaming a device changes on disk.
pub struct RenamePlan {
    /// The tailshare configuration changed and must be saved.
    pub config_changed: bool,
    /// The new SSH configuration, when it differs from the old one.
    pub ssh_config: Option<String>,
    /// Move `tailshare_<old>` to `tailshare_<new>`.
    pub move_key: bool,
    /// Move `tailshare_<old>.pub` to `tailshare_<new>.pub`.
    pub move_pub_key: bool,
}

/// The SSH configuration after renaming `old` to `new`.
pub fn plan_ssh_config(content: &str, old_name: &str, new_name: &str, keys_moved: bool) -> (r: String)
    ensures
        r@ == planned_ssh_config(content@, old_name@, new_name@, keys_moved),
{
    let renamed = rename_ssh_config_entry(content, old_name, new_name);
    if keys_moved {
        let mut old_key = chars_of("tailshare_");
        push_str(&mut old_key, old_name);
        let mut new_key = chars_of("tailshare_");
        push_str(&mut new_key, new_name);
        let old_key = string_of(&old_key);
        let new_key = string_of(&new_key);
        replace_in_tailshare_blocks(renamed.as_str(), new_name, old_key.as_str(), new_key.as_str())
    } else {
        renamed
    }
}

/// Renames a device everywhere: the tailshare configuration (updated in
/// place), the tailshare blocks of the SSH configuration, and the key files
/// (moved only when the new name has none yet). The keys stay valid on the
/// remote machine, so its `authorized_keys` is left alone.
pub fn rename_device(
    config: &mut Config,
    ssh_config: Option<&str>,
    keys: &KeyFiles,
    old_name: &str,
    new_name: &str,
) -> (p: RenamePlan)
    requires
        old(config).wf(),
    ensures
        is_renamed(*old(config), *final(config), old_name@, new_name@),
        p.config_changed == refers_to(*old(config), old_name@),
        p.move_key == (keys.old_key && !keys.new_key),
        p.move_pub_key == (keys.old_pub && !keys.new_pub),
        match ssh_config {
            Some(t) => {
                let f = planned_ssh_config(t@, old_name@, new_name@, p.move_key);
                if f != t@ {
                    p.ssh_config matches Some(s) && s@ == f
                } else {
                    p.ssh_config is None
                }
            },
            None => p.ssh_config is None,
        },
{
    let config_changed = crate::config::rename_device(config, old_name, new_name);
    let move_key = keys.old_key && !keys.new_key;
    let move_pub_key = keys.old_pub && !keys.new_pub;
    let ssh = match ssh_config {
        Some(t) => {
            let f = plan_ssh_config(t, old_name, new_name, move_key);
            if str_eq(f.as_str(), t) {
                None
            } else {
                Some(f)
            }
        },
        None => None,
    };
    RenamePlan { config_changed, ssh_config: ssh, move_key, move_pub_key }
}

// ---------------------------------------------------------------------------
// Previewing a rename
// ---------------------------------------------------------------------------

/// The preview lines for the aliases whose target is `old`.
pub open spec fn alias_preview(ps: Seq<(Seq<char>, Seq<char>)>, old: Seq<char>, new: Seq<char>) -> Seq<
    Seq<char>,
>
    decreases ps.len(),
{
    if ps.len() == 0 {
        seq![]
    } else {
        alias_preview(ps.drop_last(), old, new) + if ps.last().1 == old {
            seq!["  config: alias '"@ + ps.last().0 + "' target '"@ + old + "' -> '"@ + new + "'"@]
        } else {
            seq![]
        }
    }
}

/// The preview line for a key table holding `old`: `head`, the old name,
/// `mid`, the new name, and the closing `']`.
pub open spec fn key_preview(holds: bool, head: Seq<char>, mid: Seq<char>, old: Seq<char>, new: Seq<char>) -> Seq<
    Seq<char>,
> {
    if holds {
        seq![head + old + mid + new + "']"@]
    } else {
        seq![]
    }
}

/// The preview lines for the tailshare configuration.
pub open spec fn config_preview(c: Config, old: Seq<char>, new: Seq<char>) -> Seq<Seq<char>> {
    (if c.default_device.deep_view() == Some(old) {
        seq!["  config: default_device '"@ + old + "' -> '"@ + new + "'"@]
    } else {
        seq![]
    }) + alias_preview(c.aliases.pairs(), old, new) + key_preview(
        c.users@.dom().contains(old),
        "  config: users['"@,
        "'] -> users['"@,
        old,
        new,
    ) + key_preview(
        c.os_overrides@.dom().contains(old),
        "  config: os_overrides['"@,
        "'] -> os_overrides['"@,
        old,
        new,
    ) + key_preview(
        c.device_ips@.dom().contains(old),
        "  config: device_ips['"@,
        "'] -> device_ips['"@,
        old,
        new,
    )
}

/// The preview lines for the SSH configuration.
pub open spec fn ssh_preview(ssh: Option<Seq<char>>, old: Seq<char>, new: Seq<char>) -> Seq<Seq<char>> {
    match ssh {
        Some(t) => if renamed_config(t, old, new) != t {
            seq![
                "  ~/.ssh/config: Host '"@ + old + "' -> '"@ + new
                    + "'  (# Added by tailshare block only)"@,
            ]
        } else {
            seq![]
        },
        None => seq![],
    }
}

/// The preview lines for the key files.
pub open spec fn key_file_preview(old_key: bool, new_key: bool, old: Seq<char>, new: Seq<char>) -> Seq<
    Seq<char>,
> {
    if old_key && !new_key {
        seq![
            "  rename: ~/.ssh/tailshare_"@ + old + " -> ~/.ssh/tailshare_"@ + new,
            "  rename: ~/.ssh/tailshare_"@ + old + ".pub -> ~/.ssh/tailshare_"@ + new + ".pub"@,
            "  ~/.ssh/config: IdentityFile path updated  (# Added by tailshare block only)"@,
        ]
    } else {
        seq![]
    }
}

/// What a rename would change, one line each, or a single line saying that
/// nothing would.
pub open spec fn preview_lines(
    config: Option<Config>,
    ssh: Option<Seq<char>>,
    old_key: bool,
    new_key: bool,
    old: Seq<char>,
    new: Seq<char>,
) -> Seq<Seq<char>> {
    let changes = (match config {
        Some(c) => config_preview(c, old, new),
        None => seq![],
    }) + ssh_preview(ssh, old, new) + key_file_preview(old_key, new_key, old, new);
    if changes.len() == 0 {
        seq!["  (no changes needed)"@]
    } else {
        changes
    }
}

/// The concatenation of five string slices.
fn concat5(a: &str, b: &str, c: &str, d: &str, e: &str) -> (r: String)
    ensures
        r@ == a@ + b@ + c@ + d@ + e@,
{
    let mut line = chars_of(a);
    push_str(&mut line, b);
    push_str(&mut line, c);
    push_str(&mut line, d);
    push_str(&mut line, e);
    string_of(&line)
}

/// The concatenation of four string slices.
fn concat4(a: &str, b: &str, c: &str, d: &str) -> (r: String)
    ensures
        r@ == a@ + b@ + c@ + d@,
{
    let mut line = chars_of(a);
    push_str(&mut line, b);
    push_str(&mut line, c);
    push_str(&mut line, d);
    string_of(&line)
}

/// The concatenation of three string slices.
fn concat3(a: &str, b: &str, c: &str) -> (r: String)
    ensures
        r@ == a@ + b@ + c@,
{
    let mut line = chars_of(a);
    push_str(&mut line, b);
    push_str(&mut line, c);
    string_of(&line)
}

/// Appends a line to the preview.
fn push_line(out: &mut Vec<String>, line: String)
    ensures
        string_views(final(out)@) == string_views(old(out)@) + seq![line@],
{
    proof {
        lemma_string_views_push(out@, line);
    }
    out.push(line);
}

/// Describes what renaming `old_name` to `new_name` would change, without
/// changing anything.
pub fn preview_rename(
    config: &Option<Config>,
    ssh_config: Option<&str>,
    old_key_exists: bool,
    new_key_exists: bool,
    old_name: &str,
    new_name: &str,
) -> (r: Vec<String>)
    requires
        config matches Some(c) ==> c.wf(),
    ensures
        string_views(r@) == preview_lines(
            *config,
            match ssh_config {
                Some(t) => Some(t@),
                None => None,
            },
            old_key_exists,
            new_key_exists,
            old_name@,
            new_name@,
        ),
{
    let ghost o = old_name@;
    let ghost n = new_name@;
    let mut out: Vec<String> = Vec::new();
    assert(string_views(out@) =~= Seq::<Seq<char>>::empty());
    match config {
        Some(cfg) => {
            let is_default = match &cfg.default_device {
                Some(d) => str_eq(d.as_str(), old_name),
                None => false,
            };
            if is_default {
                push_line(&mut out, concat5("  config: default_device '", old_name, "' -> '", new_name, "'"));
            }
            let ghost base = string_views(out@);
            let ghost ps = cfg.aliases.pairs();
            let mut i: usize = 0;
            assert(ps.take(0) =~= Seq::<(Seq<char>, Seq<char>)>::empty());
            while i < cfg.aliases.len()
                invariant
                    i <= ps.len(),
                    ps == cfg.aliases.pairs(),
                    o == old_name@,
                    n == new_name@,
                    string_views(out@) == base + alias_preview(ps.take(i as int), o, n),
                decreases ps.len() - i,
            {
                assert(ps.take(i + 1).drop_last() =~= ps.take(i as int));
                assert(ps.take(i + 1).last() == ps[i as int]);
                if str_eq(cfg.aliases.value_at(i).as_str(), old_name) {
                    let head = concat5("  config: alias '", cfg.aliases.key_at(i).as_str(), "' target '", old_name, "' -> '");
                    push_line(&mut out, concat3(head.as_str(), new_name, "'"));
                }
                i = i + 1;
                assert(string_views(out@) =~= base + alias_preview(ps.take(i as int), o, n));
            }
            assert(ps.take(i as int) =~= ps);
            if cfg.users.contains_key(old_name) {
                push_line(&mut out, concat5("  config: users['", old_name, "'] -> users['", new_name, "']"));
            }
            if cfg.os_overrides.contains_key(old_name) {
                push_line(
                    &mut out,
                    concat5("  config: os_overrides['", old_name, "'] -> os_overrides['", new_name, "']"),
                );
            }
            if cfg.device_ips.contains_key(old_name) {
                push_line(
                    &mut out,
                    concat5("  config: device_ips['", old_name, "'] -> device_ips['", new_name, "']"),
                );
            }
            assert(string_views(out@) =~= config_preview(*cfg, o, n));
        },
        None => {},
    }
    match ssh_config {
        Some(t) => {
            let renamed = rename_ssh_config_entry(t, old_name, new_name);
            if !str_eq(renamed.as_str(), t) {
                push_line(
                    &mut out,
                    concat5("  ~/.ssh/config: Host '", old_name, "' -> '", new_name, "'  (# Added by tailshare block only)"),
                );
            }
        },
        None => {},
    }
    if old_key_exists && !new_key_exists {
        push_line(&mut out, concat4("  rename: ~/.ssh/tailshare_", old_name, " -> ~/.ssh/tailshare_", new_name));
        push_line(
            &mut out,
            concat5("  rename: ~/.ssh/tailshare_", old_name, ".pub -> ~/.ssh/tailshare_", new_name, ".pub"),
        );
        push_line(&mut out, "  ~/.ssh/config: IdentityFile path updated  (# Added by tailshare block only)".to_owned());
    }
    if out.len() == 0 {
        push_line(&mut out, "  (no changes needed)".to_owned());
    }
    out
}

/// Each line names a change: its third character is not the `(` that
/// opens the line saying nothing changes.
pub open spec fn change_lines(ls: Seq<Seq<char>>) -> bool {
    forall|j: int| 0 <= j < ls.len() ==> (#[trigger] ls[j]).len() > 2 && ls[j][2] != '('
}

proof fn lemma_alias_preview(ps: Seq<(Seq<char>, Seq<char>)>, old: Seq<char>, new: Seq<char>)
    ensures
        alias_preview(ps, old, new).len() == 0 <==> forall|i: int|
            0 <= i < ps.len() ==> (#[trigger] ps[i]).1 != old,
        change_lines(alias_preview(ps, old, new)),
    decreases ps.len(),
{
    reveal_strlit("  config: alias '");
    if ps.len() > 0 {
        let init = ps.drop_last();
        lemma_alias_preview(init, old, new);
        assert forall|i: int| 0 <= i < init.len() implies #[trigger] init[i] == ps[i] by {}
        let a = alias_preview(ps, old, new);
        let b = alias_preview(init, old, new);
        if ps.last().1 == old {
            assert(ps[ps.len() - 1].1 == old);
            assert(a.len() > 0);
        } else {
            assert(a =~= b);
            if forall|i: int| 0 <= i < init.len() ==> (#[trigger] init[i]).1 != old {
                assert forall|i: int| 0 <= i < ps.len() implies (#[trigger] ps[i]).1 != old by {
                    if i < init.len() {
                        assert(init[i] == ps[i]);
                    }
                }
            }
            if forall|i: int| 0 <= i < ps.len() ==> (#[trigger] ps[i]).1 != old {
                assert forall|i: int| 0 <= i < init.len() implies (#[trigger] init[i]).1 != old by {
                    assert(init[i] == ps[i]);
                }
            }
        }
        assert forall|j: int| 0 <= j < a.len() implies (#[trigger] a[j]).len() > 2 && a[j][2]
            != '(' by {
            if j < b.len() {
                assert(a[j] == b[j]);
            }
        }
    }
}

proof fn lemma_change_lines_concat(a: Seq<Seq<char>>, b: Seq<Seq<char>>)
    requires
        change_lines(a),
        change_lines(b),
    ensures
        change_lines(a + b),
{
    assert forall|j: int| 0 <= j < (a + b).len() implies ((a + b)[j]).len() > 2 && (a + b)[j][2]
        != '(' by {
        if j >= a.len() {
            assert((a + b)[j] == b[j - a.len()]);
        } else {
            assert((a + b)[j] == a[j]);
        }
    }
}

/// The preview says that nothing changes exactly when renaming would
/// change nothing: the configuration does not refer to the old name, no
/// key file would move, and the SSH configuration would stay as it is.
pub proof fn law_preview_reports_no_change_iff_rename_changes_nothing(
    config: Option<Config>,
    ssh: Option<Seq<char>>,
    old_key: bool,
    new_key: bool,
    old: Seq<char>,
    new: Seq<char>,
)
    requires
        config matches Some(c) ==> c.wf(),
    ensures
        (preview_lines(config, ssh, old_key, new_key, old, new) == seq![
            "  (no changes needed)"@,
        ]) <==> ({
            &&& config matches Some(c) ==> !refers_to(c, old)
            &&& !(old_key && !new_key)
            &&& ssh matches Some(t) ==> planned_ssh_config(t, old, new, old_key && !new_key) == t
        }),
{
    reveal_strlit("  (no changes needed)");
    reveal_strlit("  config: default_device '");
    reveal_strlit("  config: users['");
    reveal_strlit("  config: os_overrides['");
    reveal_strlit("  config: device_ips['");
    reveal_strlit("  ~/.ssh/config: Host '");
    reveal_strlit("  rename: ~/.ssh/tailshare_");
    let cp = match config {
        Some(c) => config_preview(c, old, new),
        None => Seq::<Seq<char>>::empty(),
    };
    let sp = ssh_preview(ssh, old, new);
    let kp = key_file_preview(old_key, new_key, old, new);
    let changes = cp + sp + kp;
    // Every part lists change lines, and is empty exactly when its part of
    // the rename changes nothing.
    match config {
        Some(c) => {
            let ps = c.aliases.pairs();
            lemma_alias_preview(ps, old, new);
            c.aliases.lemma_view();
            assert(alias_targets(c.aliases@, old) <==> exists|i: int|
                0 <= i < ps.len() && (#[trigger] ps[i]).1 == old) by {
                if alias_targets(c.aliases@, old) {
                    let k = choose|k: Seq<char>| c.aliases@.dom().contains(k) && #[trigger] c.aliases@[k]
                        == old;
                    let i = choose|i: int| 0 <= i < ps.len() && #[trigger] ps[i].0 == k;
                    assert(ps[i].1 == old);
                }
                if exists|i: int| 0 <= i < ps.len() && (#[trigger] ps[i]).1 == old {
                    let i = choose|i: int| 0 <= i < ps.len() && (#[trigger] ps[i]).1 == old;
                    assert(c.aliases@.dom().contains(ps[i].0));
                    assert(c.aliases@[ps[i].0] == old);
                }
            }
            let dp = if c.default_device.deep_view() == Some(old) {
                seq!["  config: default_device '"@ + old + "' -> '"@ + new + "'"@]
            } else {
                Seq::<Seq<char>>::empty()
            };
            let up = key_preview(
                c.users@.dom().contains(old),
                "  config: users['"@,
                "'] -> users['"@,
                old,
                new,
            );
            let op = key_preview(
                c.os_overrides@.dom().contains(old),
                "  config: os_overrides['"@,
                "'] -> os_overrides['"@,
                old,
                new,
            );
            let ip = key_preview(
                c.device_ips@.dom().contains(old),
                "  config: device_ips['"@,
                "'] -> device_ips['"@,
                old,
                new,
            );
            let ap = alias_preview(ps, old, new);
            assert(cp == dp + ap + up + op + ip);
            assert(change_lines(dp));
            assert(change_lines(up));
            assert(change_lines(op));
            assert(change_lines(ip));
            lemma_change_lines_concat(dp, ap);
            lemma_change_lines_concat(dp + ap, up);
            lemma_change_lines_concat(dp + ap + up, op);
            lemma_change_lines_concat(dp + ap + up + op, ip);
            assert((cp.len() == 0) <==> !refers_to(c, old));
        },
        None => {},
    }
    assert(change_lines(cp));
    match ssh {
        Some(t) => {
            if renamed_config(t, old, new) != t {
                let l = "  ~/.ssh/config: Host '"@ + old + "' -> '"@ + new
                    + "'  (# Added by tailshare block only)"@;
                assert(sp == seq![l]);
                assert(l[2] == '~');
            }
        },
        None => {},
    }
    assert(change_lines(sp));
    if old_key && !new_key {
        reveal_strlit("  ~/.ssh/config: IdentityFile path updated  (# Added by tailshare block only)");
        let l0 = "  rename: ~/.ssh/tailshare_"@ + old + " -> ~/.ssh/tailshare_"@ + new;
        let l1 = "  rename: ~/.ssh/tailshare_"@ + old + ".pub -> ~/.ssh/tailshare_"@ + new + ".pub"@;
        let l2 = "  ~/.ssh/config: IdentityFile path updated  (# Added by tailshare block only)"@;
        assert(kp == seq![l0, l1, l2]);
        assert(l0[2] == 'r' && l1[2] == 'r' && l2[2] == '~');
    }
    assert(change_lines(kp));
    lemma_change_lines_concat(cp, sp);
    lemma_change_lines_concat(cp + sp, kp);
    if changes.len() > 0 {
        assert(preview_lines(config, ssh, old_key, new_key, old, new) == changes);
        if changes == seq!["  (no changes needed)"@] {
            assert(changes[0][2] == '(');
        }
    }
}

// ---------------------------------------------------------------------------
// Automatic sync
// ---------------------------------------------------------------------------

/// What automatic sync does with one stale entry.
#[derive(Debug)]
pub enum SyncStep {
    /// Rename `old` to `new`, the one suggestion.
    Rename { old: String, new: String },
    /// The name was already renamed for an earlier entry.
    Skip,
    /// No device matches; the entry is left for the user.
    NoMatch { key: String },
    /// Several devices match; the entry is left for the user.
    Ambiguous { key: String, suggestions: Vec<String> },
}

/// The abstract value of a [`SyncStep`].
pub enum StepView {
    Rename { old: Seq<char>, new: Seq<char> },
    Skip,
    NoMatch { key: Seq<char> },
    Ambiguous { key: Seq<char>, suggestions: Seq<Seq<char>> },
}

impl View for SyncStep {
    type V = StepView;

    open spec fn view(&self) -> StepView {
        match self {
            SyncStep::Rename { old, new } => StepView::Rename { old: old@, new: new@ },
            SyncStep::Skip => StepView::Skip,
            SyncStep::NoMatch { key } => StepView::NoMatch { key: key@ },
            SyncStep::Ambiguous { key, suggestions } => StepView::Ambiguous {
                key: key@,
                suggestions: string_views(suggestions@),
            },
        }
    }
}

/// The views of a sequence of steps.
pub open spec fn step_views(v: Seq<SyncStep>) -> Seq<StepView> {
    v.map_values(|s: SyncStep| s@)
}

/// The steps for the stale entries `es`, where `seen` holds the names
/// renamed so far: a name already renamed is skipped, a single suggestion
/// is taken, and anything else is left for the user.
pub open spec fn steps_from(es: Seq<StaleView>, seen: Seq<Seq<char>>) -> Seq<StepView>
    decreases es.len(),
{
    if es.len() == 0 {
        seq![]
    } else {
        let e = es[0];
        if seen.contains(e.key) {
            seq![StepView::Skip] + steps_from(es.drop_first(), seen)
        } else if e.suggestions.len() == 1 {
            seq![StepView::Rename { old: e.key, new: e.suggestions[0] }] + steps_from(
                es.drop_first(),
                seen.push(e.key),
            )
        } else if e.suggestions.len() == 0 {
            seq![StepView::NoMatch { key: e.key }] + steps_from(es.drop_first(), seen)
        } else {
            seq![StepView::Ambiguous { key: e.key, suggestions: e.suggestions }] + steps_from(
                es.drop_first(),
                seen,
            )
        }
    }
}

/// The number of renames among the steps.
pub open spec fn renames_in(steps: Seq<StepView>) -> nat
    decreases steps.len(),
{
    if steps.len() == 0 {
        0
    } else {
        renames_in(steps.drop_last()) + if steps.last() is Rename {
            1nat
        } else {
            0nat
        }
    }
}

/// The number of entries left for the user among the steps.
pub open spec fn unresolved_in(steps: Seq<StepView>) -> nat
    decreases steps.len(),
{
    if steps.len() == 0 {
        0
    } else {
        unresolved_in(steps.drop_last()) + if steps.last() is NoMatch || steps.last() is Ambiguous {
            1nat
        } else {
            0nat
        }
    }
}

/// The plan of automatic sync.
pub struct AutoSyncPlan {
    /// One step per stale entry, in order.
    pub steps: Vec<SyncStep>,
    /// The number of renames.
    pub fixed: usize,
    /// The number of entries left for the user.
    pub ambiguous: usize,
}

/// Whether `s` is among `v`.
fn contains_string(v: &Vec<String>, s: &str) -> (r: bool)
    ensures
        r == string_views(v@).contains(s@),
{
    let mut i: usize = 0;
    while i < v.len()
        invariant
            i <= v.len(),
            forall|j: int| 0 <= j < i ==> string_views(v@)[j] != s@,
        decreases v.len() - i,
    {
        if str_eq(v[i].as_str(), s) {
            assert(string_views(v@)[i as int] == s@);
            return true;
        }
        i = i + 1;
    }
    false
}

proof fn lemma_step_views_push(v: Seq<SyncStep>, x: SyncStep)
    ensures
        step_views(v.push(x)) == step_views(v) + seq![x@],
{
    assert(step_views(v.push(x)) =~= step_views(v) + seq![x@]);
}

/// Decides, for each stale entry, whether automatic sync renames it: an
/// entry with exactly one suggestion is renamed to it, unless its name was
/// already renamed for an earlier entry; the others are left for the user.
pub fn plan_auto_sync(stale: &Vec<StaleEntry>) -> (p: AutoSyncPlan)
    ensures
        step_views(p.steps@) == steps_from(stale_views(stale@), Seq::empty()),
        p.fixed == renames_in(step_views(p.steps@)),
        p.ambiguous == unresolved_in(step_views(p.steps@)),
{
    let ghost es = stale_views(stale@);
    let mut steps: Vec<SyncStep> = Vec::new();
    let mut seen: Vec<String> = Vec::new();
    let mut fixed: usize = 0;
    let mut ambiguous: usize = 0;
    let mut i: usize = 0;
    assert(es.skip(0) =~= es);
    assert(step_views(steps@) =~= Seq::<StepView>::empty());
    assert(string_views(seen@) =~= Seq::<Seq<char>>::empty());
    while i < stale.len()
        invariant
            i <= stale.len(),
            es == stale_views(stale@),
            step_views(steps@) + steps_from(es.skip(i as int), string_views(seen@)) == steps_from(
                es,
                Seq::empty(),
            ),
            fixed == renames_in(step_views(steps@)),
            ambiguous == unresolved_in(step_views(steps@)),
            fixed + ambiguous <= steps@.len(),
            steps@.len() == i,
        decreases stale.len() - i,
    {
        let e = &stale[i];
        let ghost rest = es.skip(i as int);
        assert(rest[0] == e@);
        assert(rest.drop_first() =~= es.skip(i + 1));
        let ghost before = step_views(steps@);
        let ghost seen0 = string_views(seen@);
        assert(string_views(e.suggestions@).len() == e.suggestions@.len());
        let step = if contains_string(&seen, e.key.as_str()) {
            assert(steps_from(rest, seen0) == seq![StepView::Skip] + steps_from(rest.drop_first(), seen0));
            SyncStep::Skip
        } else if e.suggestions.len() == 1 {
            let k = e.key.clone();
            proof {
                lemma_string_views_push(seen@, k);
            }
            seen.push(k);
            assert(string_views(seen@) =~= seen0.push(e.key@));
            fixed = fixed + 1;
            assert(string_views(e.suggestions@)[0] == e.suggestions@[0]@);
            let st = SyncStep::Rename { old: e.key.clone(), new: e.suggestions[0].clone() };
            assert(steps_from(rest, seen0) == seq![st@] + steps_from(rest.drop_first(), seen0.push(e.key@)));
            st
        } else if e.suggestions.len() == 0 {
            ambiguous = ambiguous + 1;
            let st = SyncStep::NoMatch { key: e.key.clone() };
            assert(steps_from(rest, seen0) == seq![st@] + steps_from(rest.drop_first(), seen0));
            st
        } else {
            ambiguous = ambiguous + 1;
            let mut copy: Vec<String> = Vec::new();
            let mut j: usize = 0;
            while j < e.suggestions.len()
                invariant
                    j <= e.suggestions@.len(),
                    string_views(copy@) == string_views(e.suggestions@).take(j as int),
                decreases e.suggestions@.len() - j,
            {
                let x = e.suggestions[j].clone();
                proof {
                    lemma_string_views_push(copy@, x);
                }
                copy.push(x);
                j = j + 1;
                assert(string_views(copy@) =~= string_views(e.suggestions@).take(j as int));
            }
            assert(string_views(e.suggestions@).take(j as int) =~= string_views(e.suggestions@));
            let st = SyncStep::Ambiguous { key: e.key.clone(), suggestions: copy };
            assert(steps_from(rest, seen0) == seq![st@] + steps_from(rest.drop_first(), seen0));
            st
        };
        let ghost sv = step@;
        assert(steps_from(rest, seen0) == seq![sv] + steps_from(es.skip(i + 1), string_views(seen@)));
        proof {
            lemma_step_views_push(steps@, step);
        }
        steps.push(step);
        assert(step_views(steps@).drop_last() =~= before);
        assert(step_views(steps@).last() == sv);
        i = i + 1;
        assert(step_views(steps@) + steps_from(es.skip(i as int), string_views(seen@)) =~= before
            + steps_from(rest, seen0));
    }
    assert(es.skip(i as int) =~= Seq::<StaleView>::empty());
    assert(step_views(steps@) + steps_from(es.skip(i as int), string_views(seen@)) =~= step_views(
        steps@,
    ));
    AutoSyncPlan { steps, fixed, ambiguous }
}

/// A dry run of automatic sync, which validates the configuration without
/// backfilling device IPs, plans the same steps as the real run, which
/// validates it after backfilling: the same renames, the same entries left
/// for the user, and so the same counts.
pub proof fn law_dry_run_plans_as_real_run(c: Config, after: Config, ds: Seq<Device>)
    requires
        after.default_device == c.default_device,
        after.aliases == c.aliases,
        after.users == c.users,
        after.os_overrides == c.os_overrides,
        after.device_ips@ == c.device_ips@.union_prefer_right(backfilled(c, ds)),
    ensures
        steps_from(stale_entries(after, ds), Seq::empty()) == steps_from(
            stale_entries(c, ds),
            Seq::empty(),
        ),
        renames_in(steps_from(stale_entries(after, ds), Seq::empty())) == renames_in(
            steps_from(stale_entries(c, ds), Seq::empty()),
        ),
        unresolved_in(steps_from(stale_entries(after, ds), Seq::empty())) == unresolved_in(
            steps_from(stale_entries(c, ds), Seq::empty()),
        ),
{
    law_backfill_keeps_stale_entries(c, after, ds);
}

/// Automatic sync renames no name twice: the old names of its renames are
/// pairwise distinct, and none of them is among the names already renamed.
pub proof fn law_auto_sync_renames_each_name_once(es: Seq<StaleView>, seen: Seq<Seq<char>>)
    ensures
        forall|i: int|
            0 <= i < steps_from(es, seen).len() && steps_from(es, seen)[i] is Rename
                ==> !seen.contains(#[trigger] steps_from(es, seen)[i]->Rename_old),
        forall|i: int, j: int|
            0 <= i < j < steps_from(es, seen).len() && steps_from(es, seen)[i] is Rename
                && steps_from(es, seen)[j] is Rename ==> #[trigger] steps_from(es, seen)[i]->Rename_old
                != #[trigger] steps_from(es, seen)[j]->Rename_old,
    decreases es.len(),
{
    if es.len() > 0 {
        let e = es[0];
        let rest = es.drop_first();
        let seen2 = if !seen.contains(e.key) && e.suggestions.len() == 1 {
            seen.push(e.key)
        } else {
            seen
        };
        law_auto_sync_renames_each_name_once(rest, seen2);
        let all = steps_from(es, seen);
        let tail = steps_from(rest, seen2);
        assert(all == seq![all[0]] + tail);
        assert forall|i: int| 0 <= i < all.len() && all[i] is Rename implies !seen.contains(
            #[trigger] all[i]->Rename_old,
        ) by {
            if i > 0 {
                assert(all[i] == tail[i - 1]);
                if seen.contains(all[i]->Rename_old) {
                    let k = choose|k: int| 0 <= k < seen.len() && seen[k] == all[i]->Rename_old;
                    assert(seen2[k] == seen[k]);
                    assert(seen2.contains(all[i]->Rename_old));
                }
            }
        }
        assert forall|i: int, j: int|
            0 <= i < j < all.len() && all[i] is Rename && all[j]
                is Rename implies #[trigger] all[i]->Rename_old != #[trigger] all[j]->Rename_old by {
            assert(all[j] == tail[j - 1]);
            if i == 0 {
                assert(seen2 == seen.push(e.key));
                assert(seen2[seen.len() as int] == e.key);
                assert(all[i]->Rename_old == e.key);
                assert(!seen2.contains(tail[j - 1]->Rename_old));
            } else {
                assert(all[i] == tail[i - 1]);
            }
        }
    }
}

/// How `sync` runs for the names it was given.
#[derive(Debug, PartialEq, Eq)]
pub enum SyncMode {
    /// Rename the old name to the new one.
    Rename,
    /// An old name was given without a new one.
    MissingNewName,
    /// Detect stale names and fix the unambiguous ones.
    Auto,
}

/// How `sync` runs: both names rename one device, an old name alone is an
/// error, and otherwise sync is automatic.
pub fn sync_mode(old_name: Option<&str>, new_name: Option<&str>) -> (m: SyncMode)
    ensures
        m == (if old_name is Some && new_name is Some {
            SyncMode::Rename
        } else if old_name is Some {
            SyncMode::MissingNewName
        } else {
            SyncMode::Auto
        }),
{
    match (old_name, new_name) {
        (Some(_), Some(_)) => SyncMode::Rename,
        (Some(_), None) => SyncMode::MissingNewName,
        _ => SyncMode::Auto,
    }
}

// ---------------------------------------------------------------------------
// Laws of the SSH configuration rewriting
// ---------------------------------------------------------------------------

proof fn lemma_rename_same(ls: Seq<Seq<char>>, i: int, name: Seq<char>, in_block: bool)
    requires
        0 <= i <= ls.len(),
    ensures
        !in_block ==> renamed_from(ls, i, name, name) == ls.skip(i),
        in_block ==> renamed_block(ls, i, name, name) == ls.skip(i),
    decreases ls.len() - i, if in_block {
        1int
    } else {
        0int
    },
{
    if i == ls.len() {
        assert(ls.skip(i) =~= Seq::<Seq<char>>::empty());
    } else if !in_block {
        if opens_block(ls, i, name) {
            lemma_replaced_same(ls[i + 1], host_line(name));
            lemma_rename_same(ls, i + 2, name, true);
            assert(seq![ls[i], ls[i + 1]] + ls.skip(i + 2) =~= ls.skip(i));
        } else {
            lemma_rename_same(ls, i + 1, name, false);
            assert(seq![ls[i]] + ls.skip(i + 1) =~= ls.skip(i));
        }
    } else {
        if ls[i].len() == 0 {
            lemma_rename_same(ls, i + 1, name, false);
            assert(seq![ls[i]] + ls.skip(i + 1) =~= ls.skip(i));
            assert(ls[i] =~= Seq::<char>::empty());
        } else if is_indented(ls[i]) {
            lemma_replaced_same(ls[i], hostname_option(name));
            lemma_rename_same(ls, i + 1, name, true);
            assert(seq![ls[i]] + ls.skip(i + 1) =~= ls.skip(i));
        } else {
            lemma_rename_same(ls, i, name, false);
        }
    }
}

/// Renaming a device to its own name leaves the SSH configuration exactly
/// as it was, line endings included.
pub proof fn law_rename_to_same_name_keeps_ssh_config(content: Seq<char>, name: Seq<char>)
    ensures
        renamed_config(content, name, name) == content,
{
    lemma_rename_same(lines_of(content), 0, name, false);
    assert(lines_of(content).skip(0) =~= lines_of(content));
    lemma_rejoin_lines(content, seq![]);
    assert(Seq::<char>::empty() + content =~= content);
}

proof fn lemma_rename_no_block(ls: Seq<Seq<char>>, i: int, old: Seq<char>, new: Seq<char>)
    requires
        0 <= i <= ls.len(),
        forall|k: int| 0 <= k < ls.len() ==> !#[trigger] opens_block(ls, k, old),
    ensures
        renamed_from(ls, i, old, new) == ls.skip(i),
    decreases ls.len() - i,
{
    if i == ls.len() {
        assert(ls.skip(i) =~= Seq::<Seq<char>>::empty());
    } else {
        assert(!opens_block(ls, i, old));
        lemma_rename_no_block(ls, i + 1, old, new);
        assert(seq![ls[i]] + ls.skip(i + 1) =~= ls.skip(i));
    }
}

/// An SSH configuration with no tailshare block for the old name is left
/// exactly as it is, line endings included: entries that tailshare did not
/// write, and blocks of other devices, are never touched.
pub proof fn law_rename_without_block_keeps_ssh_config(content: Seq<char>, old: Seq<char>, new: Seq<char>)
    requires
        forall|k: int| 0 <= k < lines_of(content).len() ==> !#[trigger] opens_block(
            lines_of(content),
            k,
            old,
        ),
    ensures
        renamed_config(content, old, new) == content,
{
    lemma_rename_no_block(lines_of(content), 0, old, new);
    assert(lines_of(content).skip(0) =~= lines_of(content));
    lemma_rejoin_lines(content, seq![]);
    assert(Seq::<char>::empty() + content =~= content);
}

proof fn lemma_replace_line_count(
    ls: Seq<Seq<char>>,
    i: int,
    host: Seq<char>,
    old: Seq<char>,
    new: Seq<char>,
    in_block: bool,
)
    requires
        0 <= i,
    ensures
        !in_block ==> replaced_from(ls, i, host, old, new).len() == if i < ls.len() {
            ls.len() - i
        } else {
            0
        },
        in_block ==> replaced_block(ls, i, host, old, new).len() == if i < ls.len() {
            ls.len() - i
        } else {
            0
        },
    decreases ls.len() - i, if in_block {
        1int
    } else {
        0int
    },
{
    if i < ls.len() {
        if !in_block {
            if opens_block(ls, i, host) {
                lemma_replace_line_count(ls, i + 1, host, old, new, true);
            } else {
                lemma_replace_line_count(ls, i + 1, host, old, new, false);
            }
        } else {
            if ls[i].len() == 0 {
                lemma_replace_line_count(ls, i + 1, host, old, new, false);
            } else {
                lemma_replace_line_count(ls, i + 1, host, old, new, true);
            }
        }
    }
}

proof fn lemma_rename_line_count(ls: Seq<Seq<char>>, i: int, old: Seq<char>, new: Seq<char>, in_block: bool)
    requires
        0 <= i,
    ensures
        !in_block ==> renamed_from(ls, i, old, new).len() == if i < ls.len() {
            ls.len() - i
        } else {
            0
        },
        in_block ==> renamed_block(ls, i, old, new).len() == if i < ls.len() {
            ls.len() - i
        } else {
            0
        },
    decreases ls.len() - i, if in_block {
        1int
    } else {
        0int
    },
{
    if i < ls.len() {
        if !in_block {
            if opens_block(ls, i, old) {
                lemma_rename_line_count(ls, i + 2, old, new, true);
            } else {
                lemma_rename_line_count(ls, i + 1, old, new, false);
            }
        } else {
            if ls[i].len() == 0 {
                lemma_rename_line_count(ls, i + 1, old, new, false);
            } else if is_indented(ls[i]) {
                lemma_rename_line_count(ls, i + 1, old, new, true);
            } else {
                lemma_rename_line_count(ls, i, old, new, false);
            }
        }
    }
}

/// Renaming rewrites lines in place: there are as many lines after as
/// before.
pub proof fn law_rename_keeps_line_count(content: Seq<char>, old: Seq<char>, new: Seq<char>)
    ensures
        renamed_from(lines_of(content), 0, old, new).len() == lines_of(content).len(),
{
    lemma_rename_line_count(lines_of(content), 0, old, new, false);
}

/// Line `r` is line `l` as a rename may leave it: unchanged, or with
/// `Host <old>` or `HostName <old>` replaced by the same with `<new>`.
pub open spec fn line_renamed(l: Seq<char>, r: Seq<char>, old: Seq<char>, new: Seq<char>) -> bool {
    ||| r == l
    ||| r == replaced(l, host_line(old), host_line(new))
    ||| r == replaced(l, hostname_option(old), hostname_option(new))
}

/// Each line of `out` is the line of `ls` at the same place from `i` on,
/// as a rename may leave it.
spec fn renamed_lines_from(ls: Seq<Seq<char>>, i: int, out: Seq<Seq<char>>, old: Seq<char>, new: Seq<char>) -> bool {
    &&& i + out.len() <= ls.len()
    &&& forall|t: int| 0 <= t < out.len() ==> line_renamed(ls[i + t], #[trigger] out[t], old, new)
}

proof fn lemma_rename_touches(ls: Seq<Seq<char>>, i: int, old: Seq<char>, new: Seq<char>, in_block: bool)
    requires
        0 <= i <= ls.len(),
    ensures
        !in_block ==> renamed_lines_from(ls, i, renamed_from(ls, i, old, new), old, new),
        in_block ==> renamed_lines_from(ls, i, renamed_block(ls, i, old, new), old, new),
    decreases ls.len() - i, if in_block {
        1int
    } else {
        0int
    },
{
    if i < ls.len() {
        if !in_block {
            let out = renamed_from(ls, i, old, new);
            if opens_block(ls, i, old) {
                lemma_rename_touches(ls, i + 2, old, new, true);
                let rest = renamed_block(ls, i + 2, old, new);
                assert(out == seq![ls[i], replaced(ls[i + 1], host_line(old), host_line(new))]
                    + rest);
                assert forall|t: int| 0 <= t < out.len() implies line_renamed(
                    ls[i + t],
                    #[trigger] out[t],
                    old,
                    new,
                ) by {
                    if t >= 2 {
                        assert(out[t] == rest[t - 2]);
                    }
                }
            } else {
                lemma_rename_touches(ls, i + 1, old, new, false);
                let rest = renamed_from(ls, i + 1, old, new);
                assert(out == seq![ls[i]] + rest);
                assert forall|t: int| 0 <= t < out.len() implies line_renamed(
                    ls[i + t],
                    #[trigger] out[t],
                    old,
                    new,
                ) by {
                    if t >= 1 {
                        assert(out[t] == rest[t - 1]);
                    }
                }
            }
            assert(renamed_lines_from(ls, i, out, old, new));
        } else {
            let out = renamed_block(ls, i, old, new);
            if ls[i].len() == 0 {
                lemma_rename_touches(ls, i + 1, old, new, false);
                let rest = renamed_from(ls, i + 1, old, new);
                assert(out == seq![Seq::<char>::empty()] + rest);
                assert(ls[i] =~= Seq::<char>::empty());
                assert forall|t: int| 0 <= t < out.len() implies line_renamed(
                    ls[i + t],
                    #[trigger] out[t],
                    old,
                    new,
                ) by {
                    if t >= 1 {
                        assert(out[t] == rest[t - 1]);
                    }
                }
            } else if is_indented(ls[i]) {
                lemma_rename_touches(ls, i + 1, old, new, true);
                let rest = renamed_block(ls, i + 1, old, new);
                assert(out == seq![renamed_option(ls[i], old, new)] + rest);
                assert forall|t: int| 0 <= t < out.len() implies line_renamed(
                    ls[i + t],
                    #[trigger] out[t],
                    old,
                    new,
                ) by {
                    if t >= 1 {
                        assert(out[t] == rest[t - 1]);
                    }
                }
            } else {
                lemma_rename_touches(ls, i, old, new, false);
                assert(out == renamed_from(ls, i, old, new));
            }
            assert(renamed_lines_from(ls, i, out, old, new));
        }
    } else {
        assert(renamed_from(ls, i, old, new).len() == 0);
        assert(renamed_block(ls, i, old, new).len() == 0);
    }
}

/// A rename keeps every line but for `Host <old>` and `HostName <old>`
/// within them: each line comes out unchanged, or with one of the two
/// replaced by the same with the new name.
pub proof fn law_rename_touches_only_host_names(content: Seq<char>, old: Seq<char>, new: Seq<char>)
    ensures
        forall|t: int|
            0 <= t < lines_of(content).len() ==> line_renamed(
                lines_of(content)[t],
                #[trigger] renamed_from(lines_of(content), 0, old, new)[t],
                old,
                new,
            ),
{
    let ls = lines_of(content);
    let out = renamed_from(ls, 0, old, new);
    lemma_rename_line_count(ls, 0, old, new, false);
    lemma_rename_touches(ls, 0, old, new, false);
    assert forall|t: int| 0 <= t < ls.len() implies line_renamed(ls[t], #[trigger] out[t], old, new) by {
        assert(0 <= t < out.len());
        assert(ls[0 + t] == ls[t]);
    }
}

proof fn lemma_replace_same(ls: Seq<Seq<char>>, i: int, host: Seq<char>, text: Seq<char>, in_block: bool)
    requires
        0 <= i <= ls.len(),
    ensures
        !in_block ==> replaced_from(ls, i, host, text, text) == ls.skip(i),
        in_block ==> replaced_block(ls, i, host, text, text) == ls.skip(i),
    decreases ls.len() - i, if in_block {
        1int
    } else {
        0int
    },
{
    if i == ls.len() {
        assert(ls.skip(i) =~= Seq::<Seq<char>>::empty());
    } else if !in_block {
        if opens_block(ls, i, host) {
            lemma_replace_same(ls, i + 1, host, text, true);
        } else {
            lemma_replace_same(ls, i + 1, host, text, false);
        }
        assert(seq![ls[i]] + ls.skip(i + 1) =~= ls.skip(i));
    } else {
        if ls[i].len() == 0 {
            lemma_replace_same(ls, i + 1, host, text, false);
            assert(ls[i] =~= Seq::<char>::empty());
        } else {
            lemma_replaced_same(ls[i], text);
            lemma_replace_same(ls, i + 1, host, text, true);
        }
        assert(seq![ls[i]] + ls.skip(i + 1) =~= ls.skip(i));
    }
}

/// Replacing a text by itself inside tailshare blocks leaves the SSH
/// configuration exactly as it was.
pub proof fn law_replace_same_text_keeps_ssh_config(content: Seq<char>, host: Seq<char>, text: Seq<char>)
    ensures
        replaced_in_blocks(content, host, text, text) == content,
{
    lemma_replace_same(lines_of(content), 0, host, text, false);
    assert(lines_of(content).skip(0) =~= lines_of(content));
    lemma_rejoin_lines(content, seq![]);
    assert(Seq::<char>::empty() + content =~= content);
}

proof fn lemma_replace_no_block(
    ls: Seq<Seq<char>>,
    i: int,
    host: Seq<char>,
    old: Seq<char>,
    new: Seq<char>,
)
    requires
        0 <= i <= ls.len(),
        forall|k: int| 0 <= k < ls.len() ==> !#[trigger] opens_block(ls, k, host),
    ensures
        replaced_from(ls, i, host, old, new) == ls.skip(i),
    decreases ls.len() - i,
{
    if i == ls.len() {
        assert(ls.skip(i) =~= Seq::<Seq<char>>::empty());
    } else {
        assert(!opens_block(ls, i, host));
        lemma_replace_no_block(ls, i + 1, host, old, new);
        assert(seq![ls[i]] + ls.skip(i + 1) =~= ls.skip(i));
    }
}

/// An SSH configuration with no tailshare block for `host` is left
/// exactly as it is by a replacement scoped to that block.
pub proof fn law_replace_without_block_keeps_ssh_config(
    content: Seq<char>,
    host: Seq<char>,
    old: Seq<char>,
    new: Seq<char>,
)
    requires
        forall|k: int| 0 <= k < lines_of(content).len() ==> !#[trigger] opens_block(
            lines_of(content),
            k,
            host,
        ),
    ensures
        replaced_in_blocks(content, host, old, new) == content,
{
    lemma_replace_no_block(lines_of(content), 0, host, old, new);
    assert(lines_of(content).skip(0) =~= lines_of(content));
    lemma_rejoin_lines(content, seq![]);
    assert(Seq::<char>::empty() + content =~= content);
}


/// An indented option line whose word does not begin with `H` is left as
/// it is by a rename.
proof fn lemma_option_kept(l: Seq<char>, old: Seq<char>, new: Seq<char>)
    requires
        l.len() > 4,
        forall|i: int| 0 <= i < 4 ==> l[i] == ' ',
        !is_whitespace(l[4]),
        l[4] != 'H',
    ensures
        l.len() > 0,
        is_indented(l),
        renamed_option(l, old, new) == l,
{
    reveal_strlit("    ");
    reveal_strlit("HostName");
    let a = l.subrange(0, 4);
    let b = l.subrange(4, l.len() as int);
    assert(a + b =~= l);
    assert(a =~= "    "@);
    lemma_trimmed_start_skip(a, b);
    lemma_trimmed_end_prefix(b);
    let t = trimmed(l);
    assert(t == trimmed_end(b));
    assert(t[0] == b[0]) by {
        assert(t == b.subrange(0, t.len() as int));
    }
    assert(!has_prefix(t, "HostName"@)) by {
        if has_prefix(t, "HostName"@) {
            assert(t.subrange(0, 8)[0] == t[0]);
        }
    }
}

/// The `HostName` option setup writes is renamed to the new name.
proof fn lemma_option_hostname(host: Seq<char>, new: Seq<char>)
    requires
        host.len() > 0,
        !is_whitespace(host.last()),
    ensures
        ("    HostName "@ + host).len() > 0,
        is_indented("    HostName "@ + host),
        renamed_option("    HostName "@ + host, host, new) == "    HostName "@ + new,
{
    reveal_strlit("    ");
    reveal_strlit("HostName");
    reveal_strlit("HostName ");
    reveal_strlit("    HostName ");
    let l = "    HostName "@ + host;
    let a = "    "@;
    let b = hostname_option(host);
    assert(l =~= a + b);
    assert(l.subrange(0, 4) =~= a);
    lemma_trimmed_start_skip(a, b);
    assert(b.last() == host.last());
    assert(trimmed_end(b) == b);
    assert(b.subrange(0, 8) =~= "HostName"@);
    assert(has_prefix(trimmed(l), "HostName"@));
    lemma_replaced_after(a, hostname_option(host), hostname_option(new));
    assert(a + hostname_option(new) =~= "    HostName "@ + new);
}

/// A run of indented option lines up to the end is renamed line by line.
proof fn lemma_block_to_end(ls: Seq<Seq<char>>, j: int, old: Seq<char>, new: Seq<char>)
    requires
        0 <= j <= ls.len(),
        forall|t: int| j <= t < ls.len() ==> ls[t].len() > 0 && is_indented(#[trigger] ls[t]),
    ensures
        renamed_block(ls, j, old, new) == Seq::new(
            (ls.len() - j) as nat,
            |t: int| renamed_option(ls[j + t], old, new),
        ),
    decreases ls.len() - j,
{
    if j < ls.len() {
        assert(ls[j].len() > 0 && is_indented(ls[j]));
        lemma_block_to_end(ls, j + 1, old, new);
        assert(renamed_block(ls, j, old, new) =~= Seq::new(
            (ls.len() - j) as nat,
            |t: int| renamed_option(ls[j + t], old, new),
        ));
    } else {
        assert(renamed_block(ls, j, old, new) =~= Seq::new(
            (ls.len() - j) as nat,
            |t: int| renamed_option(ls[j + t], old, new),
        ));
    }
}

/// A literal followed by a single line is a single line.
proof fn lemma_literal_line(lit: Seq<char>, x: Seq<char>)
    requires
        lit.len() > 0,
        forall|i: int| 0 <= i < lit.len() ==> lit[i] != '\n',
        lit.last() != '\r',
        is_single_line(x),
    ensures
        is_single_line(lit + x),
{
    lemma_single_line_concat(lit, x);
}

/// The lines of the entry setup writes for `host`, after its first empty
/// line, are renamed to those of the entry for `new_host`, and each of them
/// is a single line.
proof fn lemma_entry_renamed(
    host: Seq<char>,
    user: Option<Seq<char>>,
    key_path: Seq<char>,
    new_host: Seq<char>,
)
    requires
        host.len() > 0,
        !is_whitespace(host.last()),
        is_single_line(host),
        is_single_line(key_path),
        user matches Some(u) ==> is_single_line(u),
    ensures
        forall|t: int|
            0 <= t < entry_lines(host, user, key_path).len() ==> is_single_line(
                #[trigger] entry_lines(host, user, key_path)[t],
            ),
        entry_lines(host, user, key_path)[0] == Seq::<char>::empty(),
        entry_lines(host, user, key_path)[1] == marker(),
        entry_lines(host, user, key_path).len() == entry_lines(new_host, user, key_path).len(),
        entry_lines(new_host, user, key_path)[0] == Seq::<char>::empty(),
        renamed_from(entry_lines(host, user, key_path), 1, host, new_host) == entry_lines(
            new_host,
            user,
            key_path,
        ).drop_first(),
{
    reveal_strlit("# Added by tailshare");
    reveal_strlit("Host ");
    reveal_strlit("    User ");
    reveal_strlit("    HostName ");
    reveal_strlit("    IdentityFile ");
    reveal_strlit("    ControlMaster auto");
    reveal_strlit("    ControlPath ~/.ssh/sockets/%r@%h-%p");
    reveal_strlit("    ControlPersist 600");
    let ls = entry_lines(host, user, key_path);
    let ms = entry_lines(new_host, user, key_path);
    let m = "# Added by tailshare"@;
    let c1 = "    ControlMaster auto"@;
    let c2 = "    ControlPath ~/.ssh/sockets/%r@%h-%p"@;
    let c3 = "    ControlPersist 600"@;
    let hn = "    HostName "@ + host;
    let idf = "    IdentityFile "@ + key_path;
    // Every line of the entry is a single line.
    assert(is_single_line(Seq::<char>::empty()));
    assert(is_single_line(m));
    assert(is_single_line(c1));
    assert(is_single_line(c2));
    assert(is_single_line(c3));
    lemma_literal_line("Host "@, host);
    lemma_literal_line("    HostName "@, host);
    lemma_literal_line("    IdentityFile "@, key_path);
    // The kept options.
    lemma_option_kept(idf, host, new_host);
    lemma_option_kept(c1, host, new_host);
    lemma_option_kept(c2, host, new_host);
    lemma_option_kept(c3, host, new_host);
    lemma_option_hostname(host, new_host);
    let tail = seq![hn, idf, c1, c2, c3];
    let new_tail = seq!["    HostName "@ + new_host, idf, c1, c2, c3];
    let head = seq![Seq::<char>::empty(), m, "Host "@ + host];
    let mid = match user {
        Some(u) => seq!["    User "@ + u],
        None => Seq::<Seq<char>>::empty(),
    };
    assert(ls =~= head + mid + tail);
    assert(ms =~= seq![Seq::<char>::empty(), m, "Host "@ + new_host] + mid + new_tail);
    match user {
        Some(u) => {
            lemma_literal_line("    User "@, u);
            lemma_option_kept("    User "@ + u, host, new_host);
        },
        None => {},
    }
    assert forall|t: int| 0 <= t < ls.len() implies is_single_line(#[trigger] ls[t]) by {
        if t >= 3 + mid.len() {
            assert(ls[t] == tail[t - 3 - mid.len()]);
        }
    }
    lemma_lines_of_with_newlines(ls);
    assert(lines_of(config_entry(host, user, key_path)) == ls);
    // The first line is empty and opens no block.
    assert(trimmed_start(Seq::<char>::empty()) == Seq::<char>::empty());
    assert(trimmed_end(Seq::<char>::empty()) == Seq::<char>::empty());
    assert(!opens_block(ls, 0, host)) by {
        assert(marker().len() > 0);
    }
    // The marker and the `Host` line open the block.
    assert(trimmed_start(m) == m);
    assert(trimmed_end(m) == m);
    let hl = host_line(host);
    assert(hl.last() == host.last());
    assert(trimmed_start(hl) == hl);
    assert(trimmed_end(hl) == hl);
    assert(opens_block(ls, 1, host));
    lemma_replaced_after(Seq::<char>::empty(), hl, host_line(new_host));
    assert(Seq::<char>::empty() + hl =~= hl);
    assert(Seq::<char>::empty() + host_line(new_host) =~= host_line(new_host));
    // The options that follow are renamed one by one up to the end.
    assert forall|t: int| 3 <= t < ls.len() implies ls[t].len() > 0 && is_indented(
        #[trigger] ls[t],
    ) by {
        if t >= 3 + mid.len() {
            assert(ls[t] == tail[t - 3 - mid.len()]);
        }
    }
    lemma_block_to_end(ls, 3, host, new_host);
    assert(renamed_block(ls, 3, host, new_host) =~= mid + new_tail) by {
        assert forall|t: int| 0 <= t < ls.len() - 3 implies renamed_option(
            ls[3 + t],
            host,
            new_host,
        ) == (mid + new_tail)[t] by {
            if t >= mid.len() {
                assert(ls[3 + t] == tail[t - mid.len()]);
            }
        }
    }
    assert(renamed_from(ls, 1, host, new_host) =~= seq![m, host_line(new_host)] + mid + new_tail);
    assert(ms.drop_first() =~= seq![m, host_line(new_host)] + mid + new_tail);
}

/// Lines before index `n` that open no block for `old` are kept as they
/// are, and the rename goes on from `n`.
proof fn lemma_renamed_prefix(ls: Seq<Seq<char>>, n: int, i: int, old: Seq<char>, new: Seq<char>)
    requires
        0 <= i <= n <= ls.len(),
        forall|k: int| i <= k < n ==> !#[trigger] opens_block(ls, k, old),
    ensures
        renamed_from(ls, i, old, new) == ls.subrange(i, n) + renamed_from(ls, n, old, new),
    decreases n - i,
{
    if i == n {
        assert(ls.subrange(i, n) + renamed_from(ls, n, old, new) =~= renamed_from(ls, n, old, new));
    } else {
        assert(!opens_block(ls, i, old));
        lemma_renamed_prefix(ls, n, i + 1, old, new);
        assert(seq![ls[i]] + (ls.subrange(i + 1, n) + renamed_from(ls, n, old, new)) =~= ls.subrange(
            i,
            n,
        ) + renamed_from(ls, n, old, new));
    }
}

/// Renaming the lines that follow others does not depend on those.
proof fn lemma_renamed_shift(
    p: Seq<Seq<char>>,
    q: Seq<Seq<char>>,
    j: int,
    old: Seq<char>,
    new: Seq<char>,
    in_block: bool,
)
    requires
        0 <= j <= q.len(),
    ensures
        !in_block ==> renamed_from(p + q, p.len() + j, old, new) == renamed_from(q, j, old, new),
        in_block ==> renamed_block(p + q, p.len() + j, old, new) == renamed_block(q, j, old, new),
    decreases q.len() - j, if in_block {
        1int
    } else {
        0int
    },
{
    let pq = p + q;
    let k = p.len() + j;
    if j < q.len() {
        assert(pq[k] == q[j]);
        if j + 1 < q.len() {
            assert(pq[k + 1] == q[j + 1]);
        }
        assert(opens_block(pq, k, old) == opens_block(q, j, old));
        if !in_block {
            if opens_block(q, j, old) {
                lemma_renamed_shift(p, q, j + 2, old, new, true);
            } else {
                lemma_renamed_shift(p, q, j + 1, old, new, false);
            }
        } else {
            if q[j].len() == 0 {
                lemma_renamed_shift(p, q, j + 1, old, new, false);
            } else if is_indented(q[j]) {
                lemma_renamed_shift(p, q, j + 1, old, new, true);
            } else {
                lemma_renamed_shift(p, q, j, old, new, false);
            }
        }
    }
}

/// No line of `existing`, once a line break ends it, opens a block for
/// `host` when none did before.
proof fn lemma_no_block_after_newline(existing: Seq<char>, host: Seq<char>)
    requires
        forall|k: int| 0 <= k < lines_of(existing).len() ==> !#[trigger] opens_block(
            lines_of(existing),
            k,
            host,
        ),
    ensures
        forall|k: int| 0 <= k < lines_of(existing + seq!['\n']).len() ==> !#[trigger] opens_block(
            lines_of(existing + seq!['\n']),
            k,
            host,
        ),
{
    reveal_strlit("Host ");
    let a = lines_of(existing);
    let b = lines_of(existing + seq!['\n']);
    lemma_lines_add_newline(existing, seq![]);
    assert forall|k: int| 0 <= k < b.len() implies !#[trigger] opens_block(b, k, host) by {
        if opens_block(b, k, host) {
            if b == a + seq![Seq::<char>::empty()] {
                if k + 1 < a.len() {
                    assert(b[k] == a[k] && b[k + 1] == a[k + 1]);
                    assert(opens_block(a, k, host));
                } else {
                    assert(b[k + 1] == Seq::<char>::empty());
                    assert(trimmed_start(Seq::<char>::empty()) == Seq::<char>::empty());
                    assert(trimmed_end(Seq::<char>::empty()) == Seq::<char>::empty());
                    assert(host_line(host).len() > 0);
                }
            } else {
                assert(b == a.drop_last() + seq![strip_cr(a.last())]);
                assert(b[k] == a[k]);
                if k + 2 < a.len() {
                    assert(b[k + 1] == a[k + 1]);
                } else {
                    assert(b[k + 1] == strip_cr(a[k + 1]));
                    lemma_trimmed_strip_cr(a[k + 1]);
                }
                assert(opens_block(a, k, host));
            }
        }
    }
}

/// The lines of a text to which an entry was appended: the lines of the
/// text ended by the entry's leading line break, then the entry's other
/// lines, each ending with `\n`. None of the first opens a block for
/// `host` when the text held none.
proof fn lemma_appended_entry(existing: Seq<char>, ls: Seq<Seq<char>>, host: Seq<char>)
    requires
        ls.len() >= 2,
        ls[0] == Seq::<char>::empty(),
        ls[1] == marker(),
        forall|t: int| 0 <= t < ls.len() ==> is_single_line(#[trigger] ls[t]),
        forall|k: int| 0 <= k < lines_of(existing).len() ==> !#[trigger] opens_block(
            lines_of(existing),
            k,
            host,
        ),
    ensures
        ({
            let p = lines_of(existing + seq!['\n']);
            let pe = line_endings(existing + seq!['\n']);
            let r = ls.drop_first();
            &&& lines_of(existing + with_newlines(ls)) == p + r
            &&& line_endings(existing + with_newlines(ls)) == pe + newline_endings(r.len())
            &&& p.len() == pe.len()
            &&& rejoined(p, pe) == existing + seq!['\n']
            &&& forall|k: int| 0 <= k < p.len() ==> !#[trigger] opens_block(p + r, k, host)
        }),
{
    reveal_strlit("# Added by tailshare");
    reveal_strlit("Host ");
    let r = ls.drop_first();
    let w = with_newlines(r);
    let e2 = existing + seq!['\n'];
    lemma_with_newlines_front(ls);
    assert(Seq::<char>::empty() + seq!['\n'] + w =~= seq!['\n'] + w);
    assert(existing + with_newlines(ls) =~= e2 + w);
    assert forall|t: int| 0 <= t < r.len() implies is_single_line(#[trigger] r[t]) by {
        assert(r[t] == ls[t + 1]);
    }
    lemma_lines_concat(e2, w, seq![]);
    lemma_lines_of_with_newlines(r);
    lemma_endings_with_newlines(r);
    let p = lines_of(e2);
    lemma_endings_len(e2, seq![]);
    lemma_rejoin_lines(e2, seq![]);
    assert(Seq::<char>::empty() + e2 =~= e2);
    lemma_no_block_after_newline(existing, host);
    let pq = p + r;
    assert forall|k: int| 0 <= k < p.len() implies !#[trigger] opens_block(pq, k, host) by {
        if k + 1 < p.len() {
            assert(pq[k] == p[k] && pq[k + 1] == p[k + 1]);
            assert(!opens_block(p, k, host));
        } else {
            assert(pq[k + 1] == r[0]);
            assert(r[0] == marker());
            assert(trimmed_start(marker()) == marker());
            assert(trimmed_end(marker()) == marker());
            assert(marker()[0] != host_line(host)[0]);
        }
    }
}

/// Renaming a device in an SSH configuration where setup appended its
/// entry for `host` gives the configuration where setup appended the entry
/// for `new_host` instead, with the same user and key path: the text before
/// the entry, which holds no block for `host`, is kept as it is, and in the
/// entry only the `Host` line and the `HostName` option change.
pub proof fn law_rename_setup_entry(
    existing: Seq<char>,
    host: Seq<char>,
    user: Option<Seq<char>>,
    key_path: Seq<char>,
    new_host: Seq<char>,
)
    requires
        host.len() > 0,
        !is_whitespace(host.last()),
        is_single_line(host),
        is_single_line(key_path),
        user matches Some(u) ==> is_single_line(u),
        forall|k: int| 0 <= k < lines_of(existing).len() ==> !#[trigger] opens_block(
            lines_of(existing),
            k,
            host,
        ),
    ensures
        renamed_config(existing + config_entry(host, user, key_path), host, new_host) == existing
            + config_entry(new_host, user, key_path),
{
    let ls = entry_lines(host, user, key_path);
    let ms = entry_lines(new_host, user, key_path);
    lemma_entry_renamed(host, user, key_path, new_host);
    lemma_appended_entry(existing, ls, host);
    let e2 = existing + seq!['\n'];
    let p = lines_of(e2);
    let pe = line_endings(e2);
    let r = ls.drop_first();
    let pq = p + r;
    // The text before the entry is kept; the entry is renamed.
    lemma_renamed_prefix(pq, p.len() as int, 0, host, new_host);
    assert(pq.subrange(0, p.len() as int) =~= p);
    lemma_renamed_shift(p, r, 0, host, new_host, false);
    assert(ls =~= seq![ls[0]] + r);
    lemma_renamed_shift(seq![ls[0]], r, 0, host, new_host, false);
    let mr = ms.drop_first();
    assert(renamed_from(pq, 0, host, new_host) == p + mr);
    // Each line keeps its ending.
    lemma_rejoined_concat(p, pe, mr, newline_endings(r.len()));
    lemma_rejoined_newlines(mr);
    lemma_with_newlines_front(ms);
    assert(e2 + with_newlines(mr) =~= existing + config_entry(new_host, user, key_path));
}

/// A run of non-empty lines up to the end, inside a block, has the text
/// replaced line by line.
proof fn lemma_replaced_to_end(
    ls: Seq<Seq<char>>,
    j: int,
    host: Seq<char>,
    old: Seq<char>,
    new: Seq<char>,
)
    requires
        0 <= j <= ls.len(),
        forall|t: int| j <= t < ls.len() ==> (#[trigger] ls[t]).len() > 0,
    ensures
        replaced_block(ls, j, host, old, new) == Seq::new(
            (ls.len() - j) as nat,
            |t: int| replaced(ls[j + t], old, new),
        ),
    decreases ls.len() - j,
{
    if j < ls.len() {
        assert(ls[j].len() > 0);
        lemma_replaced_to_end(ls, j + 1, host, old, new);
    }
    assert(replaced_block(ls, j, host, old, new) =~= Seq::new(
        (ls.len() - j) as nat,
        |t: int| replaced(ls[j + t], old, new),
    ));
}

/// A line made of a literal and a text in which `key` does not occur is
/// left unchanged by replacing `key`, when the literal never holds a `t`
/// followed by an `a`.
proof fn lemma_line_without_key(lit: Seq<char>, x: Seq<char>, key: Seq<char>, new_key: Seq<char>)
    requires
        key.len() >= 2,
        key[0] == 't',
        key[1] == 'a',
        !has_infix(x, key),
        forall|i: int| 0 <= i < lit.len() && #[trigger] lit[i] == 't' ==> i + 1 < lit.len() && lit[i
            + 1] != 'a',
    ensures
        replaced(lit + x, key, new_key) == lit + x,
{
    lemma_no_infix_after_literal(lit, x, key);
    lemma_replaced_absent(lit + x, key, new_key);
}

/// In the entry setup writes for `new_host` with the key path of `host`,
/// replacing the key name of `host` by that of `new_host` in the block
/// gives the entry with the key path of `new_host`; its lines are single
/// lines.
proof fn lemma_entry_keys_replaced(
    host: Seq<char>,
    user: Option<Seq<char>>,
    key_dir: Seq<char>,
    new_host: Seq<char>,
)
    requires
        host.len() > 0,
        !is_whitespace(host.last()),
        is_single_line(host),
        new_host.len() > 0,
        !is_whitespace(new_host.last()),
        is_single_line(new_host),
        is_single_line(key_dir),
        !has_infix(new_host, "tailshare_"@ + host),
        !has_infix((key_dir + "tailshare_"@ + host).drop_last(), "tailshare_"@ + host),
        user matches Some(u) ==> is_single_line(u) && !has_infix(u, "tailshare_"@ + host),
    ensures
        ({
            let ms = entry_lines(new_host, user, key_dir + "tailshare_"@ + host);
            let ns = entry_lines(new_host, user, key_dir + "tailshare_"@ + new_host);
            &&& forall|t: int| 0 <= t < ms.len() ==> is_single_line(#[trigger] ms[t])
            &&& ms.len() >= 2
            &&& ms[0] == Seq::<char>::empty()
            &&& ms[1] == marker()
            &&& ms.len() == ns.len()
            &&& replaced_from(
                ms,
                1,
                new_host,
                "tailshare_"@ + host,
                "tailshare_"@ + new_host,
            ) == ns.drop_first()
        }),
{
    reveal_strlit("tailshare_");
    reveal_strlit("# Added by tailshare");
    reveal_strlit("Host ");
    reveal_strlit("    User ");
    reveal_strlit("    HostName ");
    reveal_strlit("    IdentityFile ");
    reveal_strlit("    ControlMaster auto");
    reveal_strlit("    ControlPath ~/.ssh/sockets/%r@%h-%p");
    reveal_strlit("    ControlPersist 600");
    let key = "tailshare_"@ + host;
    let new_key = "tailshare_"@ + new_host;
    let kp = key_dir + key;
    let nkp = key_dir + new_key;
    assert(kp =~= key_dir + "tailshare_"@ + host);
    assert(nkp =~= key_dir + "tailshare_"@ + new_host);
    assert(key[0] == 't' && key[1] == 'a');
    // The key path is a single line, so the first rename applies.
    assert(is_single_line("tailshare_"@));
    lemma_single_line_concat("tailshare_"@, host);
    lemma_single_line_concat(key_dir, key);
    let ms = entry_lines(new_host, user, kp);
    let ns = entry_lines(new_host, user, nkp);
    let m = "# Added by tailshare"@;
    let c1 = "    ControlMaster auto"@;
    let c2 = "    ControlPath ~/.ssh/sockets/%r@%h-%p"@;
    let c3 = "    ControlPersist 600"@;
    let mid = match user {
        Some(u) => seq!["    User "@ + u],
        None => Seq::<Seq<char>>::empty(),
    };
    let tail = seq!["    HostName "@ + new_host, "    IdentityFile "@ + kp, c1, c2, c3];
    let new_tail = seq!["    HostName "@ + new_host, "    IdentityFile "@ + nkp, c1, c2, c3];
    assert(ms =~= seq![Seq::<char>::empty(), m, "Host "@ + new_host] + mid + tail);
    assert(ns =~= seq![Seq::<char>::empty(), m, "Host "@ + new_host] + mid + new_tail);
    assert(is_single_line(Seq::<char>::empty()));
    assert(is_single_line(m));
    assert(is_single_line(c1));
    assert(is_single_line(c2));
    assert(is_single_line(c3));
    lemma_literal_line("Host "@, new_host);
    lemma_literal_line("    HostName "@, new_host);
    lemma_literal_line("    IdentityFile "@, kp);
    match user {
        Some(u) => {
            lemma_literal_line("    User "@, u);
        },
        None => {},
    }
    assert forall|t: int| 0 <= t < ms.len() implies is_single_line(#[trigger] ms[t]) by {
        if t >= 3 + mid.len() {
            assert(ms[t] == tail[t - 3 - mid.len()]);
        }
    }
    // The block opens at the marker and runs to the end.
    assert(trimmed_start(Seq::<char>::empty()) == Seq::<char>::empty());
    assert(trimmed_end(Seq::<char>::empty()) == Seq::<char>::empty());
    assert(!opens_block(ms, 0, new_host)) by {
        assert(marker().len() > 0);
    }
    assert(trimmed_start(m) == m);
    assert(trimmed_end(m) == m);
    let hl = host_line(new_host);
    assert(hl.last() == new_host.last());
    assert(trimmed_start(hl) == hl);
    assert(trimmed_end(hl) == hl);
    assert(opens_block(ms, 1, new_host));
    assert forall|t: int| 2 <= t < ms.len() implies (#[trigger] ms[t]).len() > 0 by {
        if t >= 3 + mid.len() {
            assert(ms[t] == tail[t - 3 - mid.len()]);
        }
    }
    lemma_replaced_to_end(ms, 2, new_host, key, new_key);
    // Each line of the block keeps its text but for the key path.
    assert(!has_infix(Seq::<char>::empty(), key));
    lemma_line_without_key("Host "@, new_host, key, new_key);
    lemma_line_without_key("    HostName "@, new_host, key, new_key);
    lemma_line_without_key(c1, Seq::<char>::empty(), key, new_key);
    lemma_line_without_key(c2, Seq::<char>::empty(), key, new_key);
    lemma_line_without_key(c3, Seq::<char>::empty(), key, new_key);
    assert(c1 + Seq::<char>::empty() =~= c1);
    assert(c2 + Seq::<char>::empty() =~= c2);
    assert(c3 + Seq::<char>::empty() =~= c3);
    match user {
        Some(u) => {
            lemma_line_without_key("    User "@, u, key, new_key);
        },
        None => {},
    }
    let idf = "    IdentityFile "@;
    assert((idf + key_dir + key).drop_last() =~= idf + kp.drop_last());
    lemma_no_infix_after_literal(idf, kp.drop_last(), key);
    lemma_replaced_at_end(idf + key_dir, key, new_key);
    assert(idf + key_dir + key =~= idf + kp);
    assert(idf + key_dir + new_key =~= idf + nkp);
    assert(replaced_block(ms, 2, new_host, key, new_key) =~= ns.subrange(2, ns.len() as int)) by {
        assert forall|t: int| 0 <= t < ms.len() - 2 implies #[trigger] replaced(
            ms[2 + t],
            key,
            new_key,
        ) == ns[2 + t] by {
            if t >= 1 + mid.len() {
                assert(ms[2 + t] == tail[t - 1 - mid.len()]);
                assert(ns[2 + t] == new_tail[t - 1 - mid.len()]);
            }
        }
    }
    assert(replaced_from(ms, 1, new_host, key, new_key) == seq![ms[1]] + replaced_block(
        ms,
        2,
        new_host,
        key,
        new_key,
    ));
    assert(ns.drop_first() =~= seq![ms[1]] + ns.subrange(2, ns.len() as int));
}

/// Lines before index `n` that open no block for `host` are kept as they
/// are by a scoped replacement, which goes on from `n`.
proof fn lemma_replaced_prefix(
    ls: Seq<Seq<char>>,
    n: int,
    i: int,
    host: Seq<char>,
    old: Seq<char>,
    new: Seq<char>,
)
    requires
        0 <= i <= n <= ls.len(),
        forall|k: int| i <= k < n ==> !#[trigger] opens_block(ls, k, host),
    ensures
        replaced_from(ls, i, host, old, new) == ls.subrange(i, n) + replaced_from(
            ls,
            n,
            host,
            old,
            new,
        ),
    decreases n - i,
{
    if i == n {
        assert(ls.subrange(i, n) + replaced_from(ls, n, host, old, new) =~= replaced_from(
            ls,
            n,
            host,
            old,
            new,
        ));
    } else {
        assert(!opens_block(ls, i, host));
        lemma_replaced_prefix(ls, n, i + 1, host, old, new);
        assert(seq![ls[i]] + (ls.subrange(i + 1, n) + replaced_from(ls, n, host, old, new))
            =~= ls.subrange(i, n) + replaced_from(ls, n, host, old, new));
    }
}

/// A scoped replacement of the lines that follow others does not depend
/// on those.
proof fn lemma_replaced_shift(
    p: Seq<Seq<char>>,
    q: Seq<Seq<char>>,
    j: int,
    host: Seq<char>,
    old: Seq<char>,
    new: Seq<char>,
    in_block: bool,
)
    requires
        0 <= j <= q.len(),
    ensures
        !in_block ==> replaced_from(p + q, p.len() + j, host, old, new) == replaced_from(
            q,
            j,
            host,
            old,
            new,
        ),
        in_block ==> replaced_block(p + q, p.len() + j, host, old, new) == replaced_block(
            q,
            j,
            host,
            old,
            new,
        ),
    decreases q.len() - j, if in_block {
        1int
    } else {
        0int
    },
{
    let pq = p + q;
    let k = p.len() + j;
    if j < q.len() {
        assert(pq[k] == q[j]);
        if j + 1 < q.len() {
            assert(pq[k + 1] == q[j + 1]);
        }
        assert(opens_block(pq, k, host) == opens_block(q, j, host));
        if !in_block {
            if opens_block(q, j, host) {
                lemma_replaced_shift(p, q, j + 1, host, old, new, true);
            } else {
                lemma_replaced_shift(p, q, j + 1, host, old, new, false);
            }
        } else {
            if q[j].len() == 0 {
                lemma_replaced_shift(p, q, j + 1, host, old, new, false);
            } else {
                lemma_replaced_shift(p, q, j + 1, host, old, new, true);
            }
        }
    }
}

/// Renaming a device whose key files were moved, in an SSH configuration
/// where setup appended its entry for `host`, gives the configuration where
/// setup appended the entry for `new_host` with the key path of
/// `new_host`: the text before the entry, which holds no block for either
/// name, is kept as it is. This holds where the old key name
/// `tailshare_<host>` occurs nowhere else in the entry: not in the new
/// name, not in the user, and in the key path only at its end.
pub proof fn law_rename_with_keys_setup_entry(
    existing: Seq<char>,
    host: Seq<char>,
    user: Option<Seq<char>>,
    key_dir: Seq<char>,
    new_host: Seq<char>,
)
    requires
        host.len() > 0,
        !is_whitespace(host.last()),
        is_single_line(host),
        new_host.len() > 0,
        !is_whitespace(new_host.last()),
        is_single_line(new_host),
        is_single_line(key_dir),
        !has_infix(new_host, "tailshare_"@ + host),
        !has_infix((key_dir + "tailshare_"@ + host).drop_last(), "tailshare_"@ + host),
        user matches Some(u) ==> is_single_line(u) && !has_infix(u, "tailshare_"@ + host),
        forall|k: int| 0 <= k < lines_of(existing).len() ==> !#[trigger] opens_block(
            lines_of(existing),
            k,
            host,
        ),
        forall|k: int| 0 <= k < lines_of(existing).len() ==> !#[trigger] opens_block(
            lines_of(existing),
            k,
            new_host,
        ),
    ensures
        planned_ssh_config(
            existing + config_entry(host, user, key_dir + "tailshare_"@ + host),
            host,
            new_host,
            true,
        ) == existing + config_entry(new_host, user, key_dir + "tailshare_"@ + new_host),
{
    reveal_strlit("tailshare_");
    let key = "tailshare_"@ + host;
    let new_key = "tailshare_"@ + new_host;
    let kp = key_dir + key;
    let nkp = key_dir + new_key;
    assert(kp =~= key_dir + "tailshare_"@ + host);
    assert(nkp =~= key_dir + "tailshare_"@ + new_host);
    assert(is_single_line("tailshare_"@));
    lemma_single_line_concat("tailshare_"@, host);
    lemma_single_line_concat(key_dir, key);
    // First the block is renamed.
    law_rename_setup_entry(existing, host, user, kp, new_host);
    // Then the key path is replaced inside it.
    lemma_entry_keys_replaced(host, user, key_dir, new_host);
    let ms = entry_lines(new_host, user, kp);
    let ns = entry_lines(new_host, user, nkp);
    lemma_appended_entry(existing, ms, new_host);
    let e2 = existing + seq!['\n'];
    let p = lines_of(e2);
    let pe = line_endings(e2);
    let r = ms.drop_first();
    let pq = p + r;
    lemma_replaced_prefix(pq, p.len() as int, 0, new_host, key, new_key);
    assert(pq.subrange(0, p.len() as int) =~= p);
    lemma_replaced_shift(p, r, 0, new_host, key, new_key, false);
    assert(ms =~= seq![ms[0]] + r);
    lemma_replaced_shift(seq![ms[0]], r, 0, new_host, key, new_key, false);
    let nr = ns.drop_first();
    assert(replaced_from(pq, 0, new_host, key, new_key) == p + nr);
    lemma_rejoined_concat(p, pe, nr, newline_endings(r.len()));
    lemma_rejoined_newlines(nr);
    lemma_with_newlines_front(ns);
    assert(e2 + with_newlines(nr) =~= existing + config_entry(new_host, user, nkp));
}

} // verus!
