//! A fixed-width text frame relay: a codec for frames, the decision a
//! connection's reader makes on each read, and the relay state that queues
//! inbound messages and fans them out to the connected clients.
pub mod codec;
pub mod reader;
pub mod relay;
