//! # mole
//!
//! Keyboard-only mouse navigation for Linux/X11: the verified core. A background
//! daemon waits for a trigger, reads every line of text on screen with OCR, draws
//! a transparent overlay that labels each phrase with a couple of letters, and
//! teleports — or clicks, or drags — the pointer to whichever label you type.
//! Between triggers the same daemon also does free `hjkl` pointer movement, no
//! scanning involved.
//!
//! Everything that decides something is here, with a contract that says exactly
//! what it decides; talking to the display, the OCR process and the socket is the
//! program's part.
//!
//! | Module        | Responsibility                                      |
//! |---------------|-----------------------------------------------------|
//! | [`config`]    | Settings, defaults, validation, paths               |
//! | [`geometry`]  | `Rect`/`Point` primitives                           |
//! | [`capture`]   | Reading a captured [`capture::Screen`]              |
//! | [`x11`]       | Keys, pointer steps, overlay uploads                |
//! | [`detect`]    | OCR text detection, grouped into phrase targets     |
//! | [`hint`]      | Label generation, matching, anti-overlap layout     |
//! | [`render`]    | What a frame of the overlay shows                   |
//! | [`session`]   | The state machines of an interaction                |
//! | [`daemon`]    | Commands, replies, the order of a command's steps   |
//! | [`order`]     | Stable sorting                                      |
//! | [`text`]      | Characters, lines and fields, decimal numbers       |

pub mod capture;
pub mod config;
pub mod daemon;
pub mod detect;
pub mod error;
pub mod geometry;
pub mod hint;
pub mod order;
pub mod render;
pub mod session;
pub mod text;
pub mod x11;

pub use config::Config;
pub use error::{Error, Result};
