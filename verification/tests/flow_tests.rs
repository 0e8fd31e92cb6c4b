use dedent_paste::flow::{next_paste_action, PasteAction, PasteEvent};
use dedent_paste::PasteSettings;

fn settings(no_paste: bool, delay_ms: u64) -> PasteSettings {
    PasteSettings { no_paste, delay_ms }
}

#[test]
fn only_the_first_instance_goes_on() {
    let s = settings(false, 0);
    assert_eq!(
        next_paste_action(&s, PasteEvent::LockTaken(true)),
        PasteAction::ReadClipboard
    );
    assert_eq!(
        next_paste_action(&s, PasteEvent::LockTaken(false)),
        PasteAction::ExitQuietly
    );
}

#[test]
fn clipboard_text_is_dedented_and_written_back() {
    let s = settings(false, 0);
    assert_eq!(
        next_paste_action(&s, PasteEvent::ClipboardRead(Some("    a\n      b\n".to_string()))),
        PasteAction::WriteClipboard("a\n  b\n".to_string())
    );
}

#[test]
fn empty_or_missing_text_goes_to_image_conversion() {
    let s = settings(false, 0);
    assert_eq!(
        next_paste_action(&s, PasteEvent::ClipboardRead(Some(String::new()))),
        PasteAction::ConvertImage
    );
    assert_eq!(
        next_paste_action(&s, PasteEvent::ClipboardRead(None)),
        PasteAction::ConvertImage
    );
    // Whitespace is text: it is dedented, not converted.
    assert_eq!(
        next_paste_action(&s, PasteEvent::ClipboardRead(Some("  ".to_string()))),
        PasteAction::WriteClipboard(String::new())
    );
}

#[test]
fn paste_follows_the_settings() {
    assert_eq!(
        next_paste_action(&settings(true, 250), PasteEvent::ClipboardWritten),
        PasteAction::SkipPaste
    );
    assert_eq!(
        next_paste_action(&settings(false, 250), PasteEvent::ClipboardWritten),
        PasteAction::PasteAfter(250)
    );
    assert_eq!(
        next_paste_action(&settings(false, 0), PasteEvent::ClipboardWritten),
        PasteAction::PasteAfter(0)
    );
}
