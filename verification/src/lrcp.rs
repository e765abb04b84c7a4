//! The line reversal control protocol: messages in text over datagrams.

pub mod packet;
pub mod stream;
