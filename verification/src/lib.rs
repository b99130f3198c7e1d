//! A bounded-memory demultiplexer for page-structured audio container
//! streams.
//!
//! The demultiplexer extracts logical audio packets from a raw byte stream
//! that is framed into checksum-validated pages (the Ogg framing layer).
//! Raw bytes are pushed in with [`demux::Demux::write`]; reassembled packets
//! are pulled out with [`demux::Demux::next_packet`]. Both buffers the
//! demultiplexer owns are of fixed capacity, and every anomaly — junk bytes,
//! checksum mismatches, oversized packets, broken continuation chains —
//! degrades to "wait for more data" or "drop and resynchronize", never to a
//! panic.

pub mod codec;
pub mod crc;
pub mod demux;
pub mod laws;
pub mod model;
pub mod page;
