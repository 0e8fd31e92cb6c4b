//! The decisions of one hotkey press. The program takes the instance lock,
//! reads and writes the clipboard, waits and sends the keystroke; after each
//! of those steps it reports what happened here and does what it is told.
use vstd::prelude::*;

use crate::cli::PasteSettings;
use crate::dedent::{dedent_spec, dedent_text};

verus! {

/// What the program reports after a step of the paste flow.
#[derive(Debug, Clone, PartialEq, Eq)]
pub enum PasteEvent {
    /// Whether this instance got the single-instance lock.
    LockTaken(bool),
    /// The clipboard's text, if it holds any.
    ClipboardRead(Option<String>),
    /// The new clipboard content has been written.
    ClipboardWritten,
}

/// What the program does next.
#[derive(Debug, Clone, PartialEq, Eq)]
pub enum PasteAction {
    /// Read the clipboard as text.
    ReadClipboard,
    /// Another instance is running: log it and stop without touching the
    /// clipboard.
    ExitQuietly,
    /// Put this text on the clipboard.
    WriteClipboard(String),
    /// The clipboard holds no text: turn its image into text instead.
    ConvertImage,
    /// `--no-paste`: stop, the caller pastes.
    SkipPaste,
    /// Wait for the modifier keys to be released, then this many extra
    /// milliseconds, then send the paste keystroke.
    PasteAfter(u64),
}

/// The mathematical form of a `PasteAction`.
pub enum PasteStep {
    ReadClipboard,
    ExitQuietly,
    WriteClipboard(Seq<char>),
    ConvertImage,
    SkipPaste,
    PasteAfter(u64),
}

pub open spec fn step_of(a: PasteAction) -> PasteStep {
    match a {
        PasteAction::ReadClipboard => PasteStep::ReadClipboard,
        PasteAction::ExitQuietly => PasteStep::ExitQuietly,
        PasteAction::WriteClipboard(t) => PasteStep::WriteClipboard(t@),
        PasteAction::ConvertImage => PasteStep::ConvertImage,
        PasteAction::SkipPaste => PasteStep::SkipPaste,
        PasteAction::PasteAfter(d) => PasteStep::PasteAfter(d),
    }
}

/// The next step after `event`: only the first instance goes on; non-empty
/// clipboard text is dedented and written back, anything else goes to image
/// conversion; once the clipboard is written the keystroke is sent unless
/// `--no-paste` is in effect.
pub open spec fn next_paste_step(settings: PasteSettings, event: PasteEvent) -> PasteStep {
    match event {
        PasteEvent::LockTaken(true) => PasteStep::ReadClipboard,
        PasteEvent::LockTaken(false) => PasteStep::ExitQuietly,
        PasteEvent::ClipboardRead(Some(t)) => if t@.len() > 0 {
            PasteStep::WriteClipboard(dedent_spec(t@))
        } else {
            PasteStep::ConvertImage
        },
        PasteEvent::ClipboardRead(None) => PasteStep::ConvertImage,
        PasteEvent::ClipboardWritten => if settings.no_paste {
            PasteStep::SkipPaste
        } else {
            PasteStep::PasteAfter(settings.delay_ms)
        },
    }
}

pub fn next_paste_action(settings: &PasteSettings, event: PasteEvent) -> (r: PasteAction)
    ensures
        step_of(r) == next_paste_step(*settings, event),
{
    match event {
        PasteEvent::LockTaken(taken) => {
            if taken {
                PasteAction::ReadClipboard
            } else {
                PasteAction::ExitQuietly
            }
        },
        PasteEvent::ClipboardRead(Some(text)) => {
            if !text.as_str().is_empty() {
                PasteAction::WriteClipboard(dedent_text(text.as_str()))
            } else {
                PasteAction::ConvertImage
            }
        },
        PasteEvent::ClipboardRead(None) => PasteAction::ConvertImage,
        PasteEvent::ClipboardWritten => {
            if settings.no_paste {
                PasteAction::SkipPaste
            } else {
                PasteAction::PasteAfter(settings.delay_ms)
            }
        },
    }
}

} // verus!
