//! Decoding of terminal input.
//!
//! A terminal in raw mode reports keystrokes and mouse activity as a stream
//! of bytes: plain characters, control bytes and escape sequences in several
//! dialects. [`parse_event`] turns the head of such a stream into one
//! [`Event`], pulling bytes from the source only as far as the sequence at
//! hand demands, and never fails: input that cannot be understood comes back
//! as [`Event::Unsupported`] with the exact bytes that were read.
//!
//! Every decoder is specified by a function over the sequence of items that
//! the source is going to yield; the executable code is proved to compute
//! that function, to take exactly the stated number of items, and to record
//! each byte it was handed.
//!
//! - [`event`]: the events.
//! - [`error`]: why an attempt to decode can fail.
//! - [`source`]: the byte source as a sequence of items, and reading from it.
//! - [`utf8`]: one character from its UTF-8 encoding.
//! - [`params`]: the numbers between the introducer of a control sequence
//!   and its final byte.
//! - [`csi`]: control sequences, the mouse reports among them.
//! - [`parser`]: the first byte of an event and where it leads; the entry
//!   point.
//! - [`laws`]: what holds of the decoder on every input, with
//!   [`truncation`] and [`interruption`] for the lemmas on sources that end
//!   or fail before an event is complete.

pub mod csi;
pub mod error;
pub mod event;
pub mod interruption;
pub mod laws;
pub mod params;
pub mod parser;
pub mod source;
pub mod truncation;
pub mod utf8;

pub use csi::parse_csi;
pub use error::ParseError;
pub use event::{Event, EventView, Key, MouseButton, MouseEvent};
pub use parser::{parse_event, try_parse_event};
pub use source::pop;
pub use utf8::{parse_utf8_char, read_utf8_char};
