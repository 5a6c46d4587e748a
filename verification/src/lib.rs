//! An in-memory key-value store spoken to over a line-oriented binary wire
//! protocol: a codec that encodes and decodes protocol values byte-exactly,
//! an expiration-aware store engine, and a dispatcher for the PING, ECHO,
//! GET and SET commands. Every function is verified against the
//! specifications stated alongside it; the surrounding process — sockets,
//! tasks, the clock — hands the library plain bytes and instants.
pub mod bytes;
pub mod dispatch;
pub mod num;
pub mod resp;
pub mod resp_laws;
pub mod store;
