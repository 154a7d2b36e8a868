//! A verified implementation of the REdis Serialization Protocol (RESP):
//! encoding of client commands as arrays of bulk strings, and incremental
//! decoding of server replies (simple strings, errors, integers, bulk
//! strings, and nested arrays, including the null forms) from a byte
//! stream that may arrive in arbitrary fragments.

pub mod client;
pub mod decimal;
pub mod decode;
pub mod encode;
pub mod resp;
pub mod roundtrip;

pub use client::RedisKey;
pub use client::check_error;
pub use client::check_get_reply;
pub use client::check_ping_reply;
pub use client::check_set_reply;
pub use decimal::write_number;
pub use decode::Decoder;
pub use decode::MAX_DEPTH;
pub use encode::encode;
pub use encode::resp_array;
pub use encode::resp_bulk_string;
pub use encode::send;
pub use resp::Command;
pub use resp::Error;
pub use resp::RedisData;
pub use resp::RespPrefix;
pub use resp::SpecValue;
