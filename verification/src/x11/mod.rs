//! Everything that speaks the language of the X server.
//!
//! * [`connection`]: key lookups and the display's geometry.
//! * [`pointer`]: synthetic motion and clicks.
//! * [`overlay`]: the transparent fullscreen overlay window.
//! * [`grab`]: a windowless keyboard grab for free-move mode.
//! * [`hotkey`]: global key combinations.
//!
//! Requests and replies travel elsewhere; here stands what is asked for and what
//! is made of an answer.

pub mod connection;
pub mod grab;
pub mod hotkey;
pub mod overlay;
pub mod pointer;

pub use connection::{KeyInput, Keymap};
pub use grab::KeyTransition;
pub use pointer::Button;
