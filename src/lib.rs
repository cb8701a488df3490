//! The `Sec-WebSocket-Accept` value of the WebSocket opening handshake: the
//! base64 text of the SHA-1 digest of the client's key followed by a fixed
//! GUID, as a text function and as a fixed-size byte buffer function.

pub mod accept;
pub mod encoding;

pub use accept::{
    accept_from_bytes, accept_from_digest, accept_into, handshake_input, sec_websocket_accept,
    HANDSHAKE_GUID,
};
