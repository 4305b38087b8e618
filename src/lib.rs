//! Decoding of `application/x-www-form-urlencoded` query strings into a map
//! of decoded key/value strings.

pub mod decode_query_string;
pub mod decode_request;
pub mod decode_urlencoded;
pub mod query_map;
pub mod text;

pub use decode_query_string::{decode_query_string, token_pairs};
pub use decode_request::decode_request;
pub use decode_urlencoded::{decode_urlencoded, DecodeError};
pub use query_map::QueryMap;
