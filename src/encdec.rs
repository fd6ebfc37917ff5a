pub mod cipher;
pub mod dispatch;
pub mod framing;
pub mod header;
pub mod keys;

pub use cipher::{decrypt, decrypt_cursor, decrypt_non_null, encrypt, KEY_TABLE_LEN};
pub use dispatch::{dispatch, MsgLockPasswordRequest, Packet, Payload, LOCK_PASSWORD_REQUEST_CODE};
pub use framing::{packet_size_at, packet_spans, HEADER_LEN};
pub use header::MsgHeader;
pub use keys::{load_keys, KeyTableError};
