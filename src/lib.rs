//! URL parsing data model, host and IPv6 parsing, percent-encoding and the
//! `application/x-www-form-urlencoded` codec.
pub mod text;
pub mod percent;
pub mod ipv6;
pub mod host;
pub mod model;
pub mod form;

pub use form::{parse_form_urlencoded, serialize_form_urlencoded};
pub use host::{Host, ParseError, ParseResult};
pub use ipv6::IPv6Address;
pub use model::{SchemeData, SchemeRelativeURL, URL, UserInfo};
pub use percent::{EncodeSet, percent_decode, utf8_percent_encode};
