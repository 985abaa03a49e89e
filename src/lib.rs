//! Acquisition core for a laser displacement sensor on a serial link: line
//! framing and decoding, the sliding window of recent readings, the
//! acquisition worker's state machine and the duplex control channel.
pub mod codec;
pub mod window;
pub mod worker;
pub mod bidirectional;
pub mod logger;
