//! The progress lines of a remote.

use aurox::mirror::sideband::last_line;

#[test]
fn picks_last_progress_line() {
    assert_eq!(
        last_line(b"Enumerating objects: 100\rCounting objects: 50%\r"),
        Some("Counting objects: 50%".into())
    );
}

#[test]
fn handles_final_newline() {
    assert_eq!(last_line(b"done.\n"), Some("done.".into()));
}

#[test]
fn ignores_empty_and_whitespace() {
    assert_eq!(last_line(b""), None);
    assert_eq!(last_line(b"\n\r\n"), None);
    assert_eq!(last_line(b"   "), None);
}

#[test]
fn handles_invalid_utf8() {
    assert_eq!(last_line(b"\xff\xfe"), None);
}

#[test]
fn a_line_is_trimmed() {
    assert_eq!(last_line(b"first\n  second  \r\n"), Some("second".into()));
    assert_eq!(last_line("fertig \u{e4}\n".as_bytes()), Some("fertig \u{e4}".into()));
}
