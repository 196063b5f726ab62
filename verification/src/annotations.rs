//! State of the viewer's annotation tools: the pen's mode, the active
//! tool, and which ink samples a stroke in progress accepts.

use vstd::prelude::*;

verus! {

/// Default ink of the pen: a warm blue-black (RGBA), opaque.
pub const DEFAULT_INK_COLOR: [u8; 4] = [28, 32, 43, 255];

/// Stylus button that toggles the pen mode (reported as the secondary
/// stylus button by the calibrated pen).
pub const PEN_BTN_MODE: u32 = 0x40;

/// Stylus button that erases while held (reported as the primary stylus
/// button by the calibrated pen).
pub const PEN_BTN_ERASE: u32 = 0x20;

/// Annotation tool active in the viewer.
#[derive(Clone, Copy, Debug, PartialEq, Eq, Structural)]
pub enum ToolKind {
    /// No tool: gestures navigate.
    Navigate,
    /// Dragging over text highlights the lines under the stroke.
    Highlight,
    /// Dragging draws freehand ink.
    Ink,
}

/// Mode of the pen: ink or highlighter.
#[derive(Clone, Copy, Debug, PartialEq, Eq, Structural)]
pub enum PenMode {
    Ink,
    Highlight,
}

impl PenMode {
    /// Label of the mode for the toast shown when it toggles.
    pub fn label(self) -> (s: &'static str)
        ensures
            s@ == match self {
                PenMode::Ink => seq!['\u{270F}', '\u{FE0F}', ' ', 'P', 'e', 'n'],
                PenMode::Highlight => seq![
                    '\u{1F58D}',
                    '\u{FE0F}',
                    ' ',
                    'H',
                    'i',
                    'g',
                    'h',
                    'l',
                    'i',
                    'g',
                    'h',
                    't',
                    'e',
                    'r',
                ],
            },
    {
        match self {
            PenMode::Ink => {
                proof {
                    reveal_strlit("\u{270F}\u{FE0F} Pen");
                }
                "\u{270F}\u{FE0F} Pen"
            },
            PenMode::Highlight => {
                proof {
                    reveal_strlit("\u{1F58D}\u{FE0F} Highlighter");
                }
                "\u{1F58D}\u{FE0F} Highlighter"
            },
        }
    }
}

/// Whether an ink stroke whose last sample was taken at `last_ns` (none
/// yet: `None`) accepts a sample taken at `time_ns`: only strictly newer
/// samples are kept; repeated or older timestamps are dropped.
pub fn accepts_ink_sample(last_ns: Option<u64>, time_ns: u64) -> (r: bool)
    ensures
        r == match last_ns {
            Some(t) => time_ns > t,
            None => true,
        },
{
    match last_ns {
        Some(t) => time_ns > t,
        None => true,
    }
}

} // verus!
