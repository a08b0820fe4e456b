//! Block headers carried by DNS: six IPv6 answers to a height-encoded
//! hostname hold one 80-byte header in their low-order bits.

pub mod bridge;
pub mod codec;
pub mod relay;
pub mod resolver;
pub mod text;
