use tailshare::clipboard::{
    clipboard_script, is_image_extension, remote_cache_dir, remote_clipboard_script, remote_file_path,
    truncate_preview, WatchAction, WatchEvent, WatchState,
};
use tailshare::file::{remote_destination, size_unit, SizeUnit};
use tailshare::platform::{
    clipboard_file_path, clipboard_info_has_file, copy_command, get_local_clipboard_content, listing_shows_image, paste_command,
    remote_copy_cmd, remote_paste_cmd, ClipboardContent, Platform,
};

#[test]
fn truncate_preview_flattens_and_cuts() {
    assert_eq!(truncate_preview("hello\nworld", 50), "hello world");
    assert_eq!(truncate_preview("abcdef", 6), "abcdef");
    assert_eq!(truncate_preview("abcdefg", 6), "abcdef...");
    // Length is measured in bytes, the cut in characters.
    assert_eq!(truncate_preview("ééé", 4), "ééé...");
    assert_eq!(truncate_preview("ééé", 6), "ééé");
    assert_eq!(truncate_preview("", 0), "");
}

#[test]
fn watch_state_does_not_echo_synced_text() {
    let mut st = WatchState::new(Some("a".to_string()), None);
    assert_eq!(st.last_local, "a");
    assert_eq!(st.last_remote, "");
    assert_eq!(st.local_change(Some("a".to_string())), None);
    assert_eq!(st.local_change(Some("".to_string())), None);
    assert_eq!(st.local_change(None), None);
    assert_eq!(st.local_change(Some("b".to_string())), Some("b".to_string()));
    st.record_sync("b");
    assert_eq!(st.local_change(Some("b".to_string())), None);
    assert_eq!(st.remote_change(Some("b".to_string())), None);
    assert_eq!(st.remote_change(Some("c".to_string())), Some("c".to_string()));
}

#[test]
fn watch_round_steps() {
    let mut st = WatchState::new(Some("a".to_string()), Some("a".to_string()));
    // A new local text is pushed, and the round ends once it went through.
    let a = st.step(WatchEvent::LocalRead(Some("b".to_string())));
    assert!(matches!(&a, WatchAction::Push(t) if t == "b"));
    let a = st.step(WatchEvent::Pushed { text: "b".to_string(), ok: true });
    assert!(matches!(a, WatchAction::Wait));
    assert_eq!((st.last_local.as_str(), st.last_remote.as_str()), ("b", "b"));
    // Nothing new locally: the remote side is read, and its new text pulled.
    let a = st.step(WatchEvent::LocalRead(Some("b".to_string())));
    assert!(matches!(a, WatchAction::ReadRemote));
    let a = st.step(WatchEvent::RemoteRead(Some("c".to_string())));
    assert!(matches!(&a, WatchAction::Pull(t) if t == "c"));
    let a = st.step(WatchEvent::Pulled { text: "c".to_string(), ok: true });
    assert!(matches!(a, WatchAction::Wait));
    assert_eq!((st.last_local.as_str(), st.last_remote.as_str()), ("c", "c"));
    // A failed push goes on to read the remote side and records nothing.
    let a = st.step(WatchEvent::LocalRead(Some("d".to_string())));
    assert!(matches!(&a, WatchAction::Push(t) if t == "d"));
    let a = st.step(WatchEvent::Pushed { text: "d".to_string(), ok: false });
    assert!(matches!(a, WatchAction::ReadRemote));
    assert_eq!(st.last_local, "c");
    let a = st.step(WatchEvent::RemoteRead(None));
    assert!(matches!(a, WatchAction::Wait));
    let a = st.step(WatchEvent::Pulled { text: "e".to_string(), ok: false });
    assert!(matches!(a, WatchAction::Wait));
    assert_eq!(st.last_remote, "c");
}

#[test]
fn send_file_paths_and_scripts() {
    assert_eq!(remote_file_path("/home/don/.cache/tailshare", "a.png"), "/home/don/.cache/tailshare/a.png");
    assert_eq!(remote_cache_dir("/home/don\n"), "/home/don/.cache/tailshare");
    assert!(is_image_extension("png"));
    assert!(is_image_extension("jpeg"));
    assert!(!is_image_extension("PNG"));
    assert!(!is_image_extension("pdf"));
    assert_eq!(
        clipboard_script("/h/.cache/tailshare/a.png", "png"),
        "osascript -e 'set theFile to POSIX file \"/h/.cache/tailshare/a.png\"' -e 'set the clipboard to (read theFile as «class PNGf»)'"
    );
    assert_eq!(
        clipboard_script("/h/.cache/tailshare/a.png", "PNG"),
        "osascript -e 'set the clipboard to POSIX file \"/h/.cache/tailshare/a.png\"'"
    );
    assert_eq!(
        remote_clipboard_script("/h/.cache/tailshare/a.png", "PNG"),
        "osascript -e 'set theFile to POSIX file \"/h/.cache/tailshare/a.png\"' -e 'set the clipboard to (read theFile as «class PNGf»)'"
    );
    assert_eq!(
        remote_clipboard_script("/h/a.pdf", "pdf"),
        "osascript -e 'set the clipboard to POSIX file \"/h/a.pdf\"'"
    );
    assert_eq!(remote_destination("a.zip", None), "~/Downloads/a.zip");
    assert_eq!(remote_destination("a.zip", Some("~/Documents/")), "~/Documents/");
}

#[test]
fn size_units() {
    assert_eq!(size_unit(0, true), SizeUnit::B);
    assert_eq!(size_unit(1023, true), SizeUnit::B);
    assert_eq!(size_unit(1024, true), SizeUnit::KB);
    assert_eq!(size_unit(1024 * 1024 - 1, true), SizeUnit::KB);
    assert_eq!(size_unit(1024 * 1024, true), SizeUnit::MB);
    assert_eq!(size_unit(1024 * 1024 * 1024, true), SizeUnit::GB);
    assert_eq!(size_unit(1024 * 1024 * 1024, false), SizeUnit::MB);
}

#[test]
fn platform_commands() {
    assert_eq!(remote_paste_cmd("macOS"), "pbpaste");
    assert_eq!(remote_paste_cmd("windows"), "powershell.exe -NoProfile -Command Get-Clipboard");
    assert!(remote_paste_cmd("linux").starts_with("bash -c 'if command -v wl-paste"));
    assert_eq!(remote_copy_cmd("macOS"), "pbcopy");
    assert_eq!(remote_copy_cmd("windows"), "clip.exe");
    assert!(remote_copy_cmd("macos").starts_with("bash -c 'if command -v wl-copy"));
    assert_eq!(paste_command(Platform::MacOs, false), ("pbpaste", vec![]));
    assert_eq!(
        paste_command(Platform::Windows, true),
        ("powershell.exe", vec!["-NoProfile", "-Command", "Get-Clipboard"])
    );
    assert_eq!(paste_command(Platform::Linux, true), ("wl-paste", vec![]));
    assert_eq!(paste_command(Platform::Linux, false), ("xclip", vec!["-selection", "clipboard", "-o"]));
    assert_eq!(copy_command(Platform::Other, false), ("xclip", vec!["-selection", "clipboard"]));
    assert_eq!(copy_command(Platform::Windows, false), ("clip.exe", vec![]));
    assert!(listing_shows_image(Platform::MacOs, "«class PNGf», 1234"));
    assert!(listing_shows_image(Platform::Linux, "text/plain\nimage/png\n"));
    assert!(!listing_shows_image(Platform::Windows, "image/png"));
}

#[test]
fn clipboard_file_reference() {
    assert!(clipboard_info_has_file("«class furl», 54, «class utf8», 20"));
    assert!(!clipboard_info_has_file("«class PNGf», 1024"));
    assert_eq!(clipboard_file_path("/Users/don/a.txt\n"), Some("/Users/don/a.txt".to_string()));
    assert_eq!(clipboard_file_path("  \n"), None);
}

#[test]
fn clipboard_content_precedence() {
    assert_eq!(
        get_local_clipboard_content(Some("/tmp/a".to_string()), Some(vec![1]), "t".to_string()),
        ClipboardContent::File("/tmp/a".to_string())
    );
    assert_eq!(
        get_local_clipboard_content(None, Some(vec![1, 2]), "t".to_string()),
        ClipboardContent::Image(vec![1, 2])
    );
    assert_eq!(
        get_local_clipboard_content(None, None, "t".to_string()),
        ClipboardContent::Text("t".to_string())
    );
    assert_eq!(get_local_clipboard_content(None, None, String::new()), ClipboardContent::Empty);
}
