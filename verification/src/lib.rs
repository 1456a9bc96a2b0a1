//! A direct remote desktop for one local network: the host captures its screen,
//! encodes it and streams it in datagrams; the viewer reassembles, decodes and
//! shows it, and sends its input back.
//!
//! This library holds the part of the program that computes: the wire formats,
//! the conversions, the encryption of messages, and the decisions of the host,
//! the viewer and the control window.

pub mod assembly;
pub mod codec;
pub mod convert;
pub mod crypto;
pub mod gui;
pub mod host;
pub mod proto;
pub mod sync;
pub mod text;
pub mod transport;
pub mod viewer;
