//! A parser for single lines of IRC protocol text.
//!
//! A line holds optional tags, an optional prefix, a command and its
//! parameters. [`IrcMessage::parse_slice`] reads one line and hands back its
//! parts as slices of the line itself.
//!
//! The meaning of a line is defined in [`grammar`], on bytes; the parser is
//! proved to compute exactly that, and the modules [`laws`], [`trailing`],
//! [`spacing`] and [`rejoin`] prove what follows from the definition for
//! every line.

pub mod grammar;
pub mod words;
pub mod scan;
pub mod text;
pub mod tags;
pub mod params;
pub mod message;
pub mod laws;
pub mod trailing;
pub mod spacing;
pub mod rejoin;

pub use message::{IrcMessage, ParseError};
pub use tags::Tags;
