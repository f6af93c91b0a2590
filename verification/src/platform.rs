//! Platform clipboard commands and the classification of clipboard content.

use vstd::prelude::*;
use crate::text::{chars_of, contains, has_infix, str_eq, string_of, trim_bounds, trimmed};

verus! {

/// What the local clipboard holds.
#[derive(Debug, Clone, PartialEq)]
pub enum ClipboardContent {
    Text(String),
    Image(Vec<u8>),
    /// A file copied from Finder (contains the full path)
    File(String),
    Empty,
}

/// The operating system tailshare was built for.
#[derive(Debug, Clone, Copy, PartialEq, Eq)]
pub enum Platform {
    MacOs,
    Windows,
    Linux,
    Other,
}

/// The views of a sequence of string slices.
pub open spec fn str_views(v: Seq<&str>) -> Seq<Seq<char>> {
    v.map_values(|s: &str| s@)
}

/// The program and arguments that print the local clipboard: `pbpaste` on
/// macOS, PowerShell's `Get-Clipboard` on Windows, otherwise `wl-paste`
/// when it is installed and `xclip` when it is not.
pub fn paste_command(platform: Platform, wl_paste_installed: bool) -> (r: (&'static str, Vec<&'static str>))
    ensures
        platform == Platform::MacOs ==> r.0@ == "pbpaste"@ && r.1@.len() == 0,
        platform == Platform::Windows ==> r.0@ == "powershell.exe"@ && str_views(r.1@) == seq![
            "-NoProfile"@,
            "-Command"@,
            "Get-Clipboard"@,
        ],
        platform != Platform::MacOs && platform != Platform::Windows && wl_paste_installed ==> r.0@
            == "wl-paste"@ && r.1@.len() == 0,
        platform != Platform::MacOs && platform != Platform::Windows && !wl_paste_installed ==> r.0@
            == "xclip"@ && str_views(r.1@) == seq!["-selection"@, "clipboard"@, "-o"@],
{
    match platform {
        Platform::MacOs => ("pbpaste", Vec::new()),
        Platform::Windows => {
            let args = vec!["-NoProfile", "-Command", "Get-Clipboard"];
            assert(str_views(args@) =~= seq!["-NoProfile"@, "-Command"@, "Get-Clipboard"@]);
            ("powershell.exe", args)
        },
        _ => {
            if wl_paste_installed {
                ("wl-paste", Vec::new())
            } else {
                let args = vec!["-selection", "clipboard", "-o"];
                assert(str_views(args@) =~= seq!["-selection"@, "clipboard"@, "-o"@]);
                ("xclip", args)
            }
        },
    }
}

/// The program and arguments that set the local clipboard from standard
/// input: `pbcopy` on macOS, `clip.exe` on Windows, otherwise `wl-copy`
/// when it is installed and `xclip` when it is not.
pub fn copy_command(platform: Platform, wl_copy_installed: bool) -> (r: (&'static str, Vec<&'static str>))
    ensures
        platform == Platform::MacOs ==> r.0@ == "pbcopy"@ && r.1@.len() == 0,
        platform == Platform::Windows ==> r.0@ == "clip.exe"@ && r.1@.len() == 0,
        platform != Platform::MacOs && platform != Platform::Windows && wl_copy_installed ==> r.0@
            == "wl-copy"@ && r.1@.len() == 0,
        platform != Platform::MacOs && platform != Platform::Windows && !wl_copy_installed ==> r.0@
            == "xclip"@ && str_views(r.1@) == seq!["-selection"@, "clipboard"@],
{
    match platform {
        Platform::MacOs => ("pbcopy", Vec::new()),
        Platform::Windows => ("clip.exe", Vec::new()),
        _ => {
            if wl_copy_installed {
                ("wl-copy", Vec::new())
            } else {
                let args = vec!["-selection", "clipboard"];
                assert(str_views(args@) =~= seq!["-selection"@, "clipboard"@]);
                ("xclip", args)
            }
        },
    }
}

/// A macOS `clipboard info` report lists an image: PNG or TIFF data.
pub open spec fn info_lists_image(info: Seq<char>) -> bool {
    has_infix(info, "PNGf"@) || has_infix(info, "TIFF"@)
}

/// Whether a macOS `clipboard info` report lists image data.
pub fn clipboard_info_has_image(info: &str) -> (r: bool)
    ensures
        r == info_lists_image(info@),
{
    let cs = chars_of(info);
    let png = chars_of("PNGf");
    let tiff = chars_of("TIFF");
    contains(&cs, &png) || contains(&cs, &tiff)
}

/// Whether the listing of clipboard content that the platform's tool
/// printed shows an image: `clipboard info` on macOS lists PNG or TIFF
/// data, the type list on Linux lists `image/png`; other platforms are
/// never asked.
pub fn listing_shows_image(platform: Platform, listing: &str) -> (r: bool)
    ensures
        platform == Platform::MacOs ==> r == info_lists_image(listing@),
        platform == Platform::Linux ==> r == has_infix(listing@, "image/png"@),
        platform != Platform::MacOs && platform != Platform::Linux ==> !r,
{
    match platform {
        Platform::MacOs => clipboard_info_has_image(listing),
        Platform::Linux => {
            let cs = chars_of(listing);
            let png = chars_of("image/png");
            contains(&cs, &png)
        },
        _ => false,
    }
}

/// Whether a macOS `clipboard info` report lists a file reference.
pub fn clipboard_info_has_file(info: &str) -> (r: bool)
    ensures
        r == has_infix(info@, "furl"@),
{
    let cs = chars_of(info);
    let furl = chars_of("furl");
    contains(&cs, &furl)
}

/// The path of the file on the clipboard, from what the query for its POSIX
/// path printed: that output trimmed, when anything is left.
pub fn clipboard_file_path(output: &str) -> (r: Option<String>)
    ensures
        trimmed(output@).len() == 0 ==> r is None,
        trimmed(output@).len() > 0 ==> (r matches Some(p) && p@ == trimmed(output@)),
{
    let cs = chars_of(output);
    let (lo, hi) = trim_bounds(&cs);
    if lo == hi {
        return None;
    }
    let mut out: Vec<char> = Vec::new();
    let mut i = lo;
    while i < hi
        invariant
            lo <= i <= hi <= cs.len(),
            out@ == cs@.subrange(lo as int, i as int),
        decreases hi - i,
    {
        out.push(cs[i]);
        i = i + 1;
        assert(out@ =~= cs@.subrange(lo as int, i as int));
    }
    Some(string_of(&out))
}

/// Classifies the local clipboard. A file reference comes first, then image
/// data, then text; empty text is an empty clipboard. `image` is `None`
/// when there is no image or it could not be read; `text` is only looked at
/// when there is neither a file nor an image.
pub fn get_local_clipboard_content(
    file_path: Option<String>,
    image: Option<Vec<u8>>,
    text: String,
) -> (r: ClipboardContent)
    ensures
        match file_path {
            Some(p) => r matches ClipboardContent::File(q) && q@ == p@,
            None => match image {
                Some(d) => r matches ClipboardContent::Image(e) && e@ == d@,
                None => if text@.len() == 0 {
                    r is Empty
                } else {
                    r matches ClipboardContent::Text(t) && t@ == text@
                },
            },
        },
{
    if let Some(path) = file_path {
        return ClipboardContent::File(path);
    }
    if let Some(data) = image {
        return ClipboardContent::Image(data);
    }
    if text.as_str().is_empty() {
        ClipboardContent::Empty
    } else {
        ClipboardContent::Text(text)
    }
}

/// The command that prints the clipboard on a remote machine running `os`.
pub open spec fn remote_paste_spec(os: Seq<char>) -> Seq<char> {
    if os == "macOS"@ {
        "pbpaste"@
    } else if os == "windows"@ {
        "powershell.exe -NoProfile -Command Get-Clipboard"@
    } else {
        "bash -c 'if command -v wl-paste >/dev/null 2>&1; then wl-paste; elif command -v xclip >/dev/null 2>&1; then xclip -selection clipboard -o; else echo \"ERROR: no clipboard tool found\" >&2; exit 1; fi'"@
    }
}

/// The command that sets the clipboard on a remote machine running `os`
/// from standard input.
pub open spec fn remote_copy_spec(os: Seq<char>) -> Seq<char> {
    if os == "macOS"@ {
        "pbcopy"@
    } else if os == "windows"@ {
        "clip.exe"@
    } else {
        "bash -c 'if command -v wl-copy >/dev/null 2>&1; then wl-copy; elif command -v xclip >/dev/null 2>&1; then xclip -selection clipboard; else echo \"ERROR: no clipboard tool found\" >&2; exit 1; fi'"@
    }
}

/// The command that prints the clipboard on a remote machine running `os`.
pub fn remote_paste_cmd(os: &str) -> (r: &'static str)
    ensures
        r@ == remote_paste_spec(os@),
{
    if str_eq(os, "macOS") {
        "pbpaste"
    } else if str_eq(os, "windows") {
        "powershell.exe -NoProfile -Command Get-Clipboard"
    } else {
        "bash -c 'if command -v wl-paste >/dev/null 2>&1; then wl-paste; elif command -v xclip >/dev/null 2>&1; then xclip -selection clipboard -o; else echo \"ERROR: no clipboard tool found\" >&2; exit 1; fi'"
    }
}

/// The command that sets the clipboard on a remote machine running `os`
/// from standard input.
pub fn remote_copy_cmd(os: &str) -> (r: &'static str)
    ensures
        r@ == remote_copy_spec(os@),
{
    if str_eq(os, "macOS") {
        "pbcopy"
    } else if str_eq(os, "windows") {
        "clip.exe"
    } else {
        "bash -c 'if command -v wl-copy >/dev/null 2>&1; then wl-copy; elif command -v xclip >/dev/null 2>&1; then xclip -selection clipboard; else echo \"ERROR: no clipboard tool found\" >&2; exit 1; fi'"
    }
}

} // verus!
