//! Clipboard transfer decisions: previews, the state of watch mode, and the
//! remote paths and scripts used when a file is sent.

use vstd::prelude::*;
use crate::text::{
    byte_len, byte_len_at_most, chars_of, push_str, replace_all, replaced, str_eq,
    string_of, to_lowercase, trim_bounds, trimmed, unicode_lowercase,
};

verus! {

// ---------------------------------------------------------------------------
// Previews
// ---------------------------------------------------------------------------

/// `s` with each newline turned into a space.
pub open spec fn flattened(s: Seq<char>) -> Seq<char> {
    replaced(s, seq!['\n'], seq![' '])
}

/// The first `n` characters of `s`, or all of them when there are fewer.
pub open spec fn prefix_upto(s: Seq<char>, n: nat) -> Seq<char> {
    if n < s.len() {
        s.take(n as int)
    } else {
        s
    }
}

/// The one-line preview of `s`: its newlines turned into spaces, and when
/// that is longer than `max` bytes, its first `max` characters followed by
/// `...`.
pub open spec fn preview_of(s: Seq<char>, max: nat) -> Seq<char> {
    let flat = flattened(s);
    if byte_len(flat) <= max {
        flat
    } else {
        prefix_upto(flat, max) + "..."@
    }
}

/// A one-line preview of clipboard text for messages.
pub fn truncate_preview(s: &str, max: usize) -> (r: String)
    ensures
        r@ == preview_of(s@, max as nat),
{
    let cs = chars_of(s);
    let nl = vec!['\n'];
    let sp = vec![' '];
    assert(nl@ =~= seq!['\n']);
    assert(sp@ =~= seq![' ']);
    let flat = replace_all(&cs, &nl, &sp);
    if byte_len_at_most(&flat, max) {
        return string_of(&flat);
    }
    let mut out: Vec<char> = Vec::new();
    let mut i: usize = 0;
    let n = if max < flat.len() {
        max
    } else {
        flat.len()
    };
    while i < n
        invariant
            i <= n <= flat.len(),
            out@ == flat@.take(i as int),
        decreases n - i,
    {
        out.push(flat[i]);
        i = i + 1;
        assert(out@ =~= flat@.take(i as int));
    }
    assert(out@ =~= prefix_upto(flat@, max as nat));
    push_str(&mut out, "...");
    string_of(&out)
}

// ---------------------------------------------------------------------------
// Watch mode
// ---------------------------------------------------------------------------

/// The last clipboard contents watch mode saw on each side.
pub struct WatchState {
    pub last_local: String,
    pub last_remote: String,
}

/// The text to transfer when a side's clipboard was read as `current` and
/// `last` is what that side held before: new, nonempty text only.
pub open spec fn change_of(current: Option<String>, last: Seq<char>) -> Option<Seq<char>> {
    match current {
        Some(c) => if c@ != last && c@.len() > 0 {
            Some(c@)
        } else {
            None
        },
        None => None,
    }
}

impl WatchState {
    /// The starting state: the clipboards as first read, empty where a read
    /// failed.
    pub fn new(local: Option<String>, remote: Option<String>) -> (r: WatchState)
        ensures
            r.last_local@ == match local {
                Some(l) => l@,
                None => Seq::<char>::empty(),
            },
            r.last_remote@ == match remote {
                Some(x) => x@,
                None => Seq::<char>::empty(),
            },
    {
        let last_local = match local {
            Some(l) => l,
            None => String::new(),
        };
        let last_remote = match remote {
            Some(x) => x,
            None => String::new(),
        };
        WatchState { last_local, last_remote }
    }

    /// The local text to send to the remote side, given the local clipboard
    /// as just read (`None` when the read failed).
    pub fn local_change(&self, current: Option<String>) -> (r: Option<String>)
        ensures
            match r {
                Some(t) => change_of(current, self.last_local@) == Some(t@),
                None => change_of(current, self.last_local@) is None,
            },
    {
        match current {
            Some(c) => {
                if !str_eq(c.as_str(), self.last_local.as_str()) && !c.as_str().is_empty() {
                    Some(c)
                } else {
                    None
                }
            },
            None => None,
        }
    }

    /// The remote text to set locally, given the remote clipboard as just
    /// read (`None` when the read failed).
    pub fn remote_change(&self, current: Option<String>) -> (r: Option<String>)
        ensures
            match r {
                Some(t) => change_of(current, self.last_remote@) == Some(t@),
                None => change_of(current, self.last_remote@) is None,
            },
    {
        match current {
            Some(c) => {
                if !str_eq(c.as_str(), self.last_remote.as_str()) && !c.as_str().is_empty() {
                    Some(c)
                } else {
                    None
                }
            },
            None => None,
        }
    }

    /// Records that `text` was transferred: both sides now hold it.
    pub fn record_sync(&mut self, text: &str)
        ensures
            final(self).last_local@ == text@,
            final(self).last_remote@ == text@,
    {
        self.last_local = text.to_owned();
        self.last_remote = text.to_owned();
    }
}

/// What watch mode learned since its last step.
#[derive(Debug)]
pub enum WatchEvent {
    /// The local clipboard was read; `None` when the read failed.
    LocalRead(Option<String>),
    /// `text` was put on the remote clipboard, or that failed.
    Pushed { text: String, ok: bool },
    /// The remote clipboard was read; `None` when the read failed.
    RemoteRead(Option<String>),
    /// `text` was put on the local clipboard, or that failed.
    Pulled { text: String, ok: bool },
}

/// What watch mode does next.
#[derive(Debug)]
pub enum WatchAction {
    /// Put this text on the remote clipboard.
    Push(String),
    /// Read the remote clipboard.
    ReadRemote,
    /// Put this text on the local clipboard.
    Pull(String),
    /// The round is over: wait for the next one, which starts by reading
    /// the local clipboard.
    Wait,
}

impl WatchState {
    /// One step of a watch round. A round reads the local clipboard and
    /// pushes new local text to the remote side; when it pushed, the round
    /// ends there. Otherwise it reads the remote clipboard and pulls new
    /// remote text to the local side. A transfer that went through is
    /// recorded on both sides; one that failed changes nothing.
    pub fn step(&mut self, event: WatchEvent) -> (a: WatchAction)
        ensures
            match event {
                WatchEvent::LocalRead(current) => {
                    &&& final(self).last_local@ == old(self).last_local@
                    &&& final(self).last_remote@ == old(self).last_remote@
                    &&& match change_of(current, old(self).last_local@) {
                        Some(t) => (a matches WatchAction::Push(x) && x@ == t),
                        None => a is ReadRemote,
                    }
                },
                WatchEvent::Pushed { text, ok } => if ok {
                    &&& final(self).last_local@ == text@
                    &&& final(self).last_remote@ == text@
                    &&& a is Wait
                } else {
                    &&& final(self).last_local@ == old(self).last_local@
                    &&& final(self).last_remote@ == old(self).last_remote@
                    &&& a is ReadRemote
                },
                WatchEvent::RemoteRead(current) => {
                    &&& final(self).last_local@ == old(self).last_local@
                    &&& final(self).last_remote@ == old(self).last_remote@
                    &&& match change_of(current, old(self).last_remote@) {
                        Some(t) => (a matches WatchAction::Pull(x) && x@ == t),
                        None => a is Wait,
                    }
                },
                WatchEvent::Pulled { text, ok } => {
                    &&& ok ==> final(self).last_local@ == text@ && final(self).last_remote@ == text@
                    &&& !ok ==> final(self).last_local@ == old(self).last_local@
                        && final(self).last_remote@ == old(self).last_remote@
                    &&& a is Wait
                },
            },
    {
        match event {
            WatchEvent::LocalRead(current) => match self.local_change(current) {
                Some(t) => WatchAction::Push(t),
                None => WatchAction::ReadRemote,
            },
            WatchEvent::Pushed { text, ok } => {
                if ok {
                    self.record_sync(text.as_str());
                    WatchAction::Wait
                } else {
                    WatchAction::ReadRemote
                }
            },
            WatchEvent::RemoteRead(current) => match self.remote_change(current) {
                Some(t) => WatchAction::Pull(t),
                None => WatchAction::Wait,
            },
            WatchEvent::Pulled { text, ok } => {
                if ok {
                    self.record_sync(text.as_str());
                }
                WatchAction::Wait
            },
        }
    }
}

/// After a transfer, reading the transferred text back on either side
/// starts no new transfer, so a synced value never bounces between the two
/// machines.
pub proof fn law_synced_text_is_not_echoed(s: WatchState, text: String)
    requires
        s.last_local@ == text@,
        s.last_remote@ == text@,
    ensures
        change_of(Some(text), s.last_local@) is None,
        change_of(Some(text), s.last_remote@) is None,
{
}

// ---------------------------------------------------------------------------
// Sending files
// ---------------------------------------------------------------------------

/// The remote directory for clipboard file transfers, given the remote
/// output of `echo $HOME`.
pub open spec fn cache_dir_of(home_output: Seq<char>) -> Seq<char> {
    trimmed(home_output) + "/.cache/tailshare"@
}

/// The remote directory for clipboard file transfers, given the remote
/// output of `echo $HOME`.
pub fn remote_cache_dir(home_output: &str) -> (r: String)
    ensures
        r@ == cache_dir_of(home_output@),
{
    let cs = chars_of(home_output);
    let (lo, hi) = trim_bounds(&cs);
    let mut out: Vec<char> = Vec::new();
    let mut i = lo;
    while i < hi
        invariant
            lo <= i <= hi <= cs.len(),
            out@ == cs@.subrange(lo as int, i as int),
        decreases hi - i,
    {
        out.push(cs[i]);
        i = i + 1;
        assert(out@ =~= cs@.subrange(lo as int, i as int));
    }
    push_str(&mut out, "/.cache/tailshare");
    string_of(&out)
}

/// The remote path of a file sent to the cache directory: the directory,
/// a slash, and the file's name.
pub fn remote_file_path(cache_dir: &str, file_name: &str) -> (r: String)
    ensures
        r@ == cache_dir@ + "/"@ + file_name@,
{
    let mut out = chars_of(cache_dir);
    push_str(&mut out, "/");
    push_str(&mut out, file_name);
    string_of(&out)
}

/// The lowercased extension names an image format that macOS can put on
/// the clipboard as a picture.
pub open spec fn image_extension(ext_lower: Seq<char>) -> bool {
    ||| ext_lower == "png"@
    ||| ext_lower == "jpg"@
    ||| ext_lower == "jpeg"@
    ||| ext_lower == "gif"@
    ||| ext_lower == "bmp"@
    ||| ext_lower == "tiff"@
}

/// Whether a lowercased file extension names an image format.
pub fn is_image_extension(ext_lower: &str) -> (r: bool)
    ensures
        r == image_extension(ext_lower@),
{
    str_eq(ext_lower, "png") || str_eq(ext_lower, "jpg") || str_eq(ext_lower, "jpeg") || str_eq(
        ext_lower,
        "gif",
    ) || str_eq(ext_lower, "bmp") || str_eq(ext_lower, "tiff")
}

/// The remote macOS command that puts a sent file on the clipboard: as a
/// picture for an image, as a file reference otherwise.
pub open spec fn clipboard_script_of(remote_path: Seq<char>, ext_lower: Seq<char>) -> Seq<char> {
    if image_extension(ext_lower) {
        "osascript -e 'set theFile to POSIX file \""@ + remote_path
            + "\"' -e 'set the clipboard to (read theFile as «class PNGf»)'"@
    } else {
        "osascript -e 'set the clipboard to POSIX file \""@ + remote_path + "\"'"@
    }
}

/// The remote macOS command that puts a sent file on the clipboard, given
/// the lowercased extension of the file.
pub fn clipboard_script(remote_path: &str, ext_lower: &str) -> (r: String)
    ensures
        r@ == clipboard_script_of(remote_path@, ext_lower@),
{
    let mut out: Vec<char>;
    if is_image_extension(ext_lower) {
        out = chars_of("osascript -e 'set theFile to POSIX file \"");
        push_str(&mut out, remote_path);
        push_str(&mut out, "\"' -e 'set the clipboard to (read theFile as «class PNGf»)'");
    } else {
        out = chars_of("osascript -e 'set the clipboard to POSIX file \"");
        push_str(&mut out, remote_path);
        push_str(&mut out, "\"'");
    }
    string_of(&out)
}

/// The remote macOS command that puts a sent file on the clipboard, given
/// the extension of the file as it is; the extension is lowercased first.
pub fn remote_clipboard_script(remote_path: &str, ext: &str) -> (r: String)
    ensures
        r@ == clipboard_script_of(remote_path@, unicode_lowercase(ext@)),
{
    let lower = to_lowercase(ext);
    clipboard_script(remote_path, lower.as_str())
}

} // verus!
