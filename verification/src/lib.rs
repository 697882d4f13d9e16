//! The workspaces of a Hyprland session, followed through the compositor's
//! event stream.
//!
//! The compositor writes one line per event to a socket. The bytes arrive
//! in chunks that end anywhere, so the work is done in four steps, each in
//! a module of its own:
//!
//! - [`frame`] cuts the stream into lines and keeps the line that is still
//!   open in a buffer of fixed size;
//! - [`event`] decodes a line into an [`event::Event`];
//! - [`state`] applies an event to the known workspaces, the active
//!   workspace and the submap;
//! - [`render`] writes the markup that shows the state, with the labels of
//!   [`label`].
//!
//! [`session`] ties the steps together for one chunk, [`bootstrap`] reads
//! the workspaces that exist at the start from the compositor's listing,
//! [`workspaces`] holds the ordered set of workspace numbers, and [`text`]
//! reads and writes numbers.
//!
//! Every function is verified against its contract, and no public function
//! asks anything of its caller. Four functions rest on contracts that are
//! not proved, because they call code that is not verified here:
//! `std::str::from_utf8`, `String::push` and `char::from_u32` of the
//! standard library, and the search for a pattern by the `regex` crate.
//! Nothing in the library reads or writes anything: connecting, reading,
//! logging and printing are left to the program that uses it.

pub mod bootstrap;
pub mod event;
pub mod frame;
pub mod label;
pub mod render;
pub mod session;
pub mod state;
pub mod text;
pub mod workspaces;
