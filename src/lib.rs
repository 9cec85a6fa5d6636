//! Input pipeline of a small USB keyboard: matrix scanning, debouncing,
//! layered key resolution, HID report construction and the submission
//! protocol that hands reports to the USB transport.
pub mod board;
pub mod debounce;
pub mod keyboard;
pub mod keycode;
pub mod layout;
pub mod matrix;
pub mod transport;
pub mod report;

pub use debounce::{Debouncer, Event, PressedKeys};
pub use keyboard::Keyboard;
pub use keycode::{is_modifier, modifier_bit};
pub use layout::{Action, Held, Layout, Shift};
pub use matrix::{scan, ScanError};
pub use report::{HidReport, render};
pub use transport::{Submission, SubmitAction, WriteOutcome};
