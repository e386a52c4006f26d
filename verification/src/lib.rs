//! A minimal SCGI client core: framing a payload into an SCGI request
//! and splitting a raw SCGI response into headers and a body.
mod chars;
mod decimal;
mod request;
mod response;
mod search;

pub use chars::byte_value_string;
pub use chars::chars_of;
pub use chars::lemma_chars_of_preserves_values;
pub use chars::lemma_encode_utf8_concat;
pub use decimal::dec_chars;
pub use decimal::digit_char;
pub use decimal::lemma_dec_chars_digits;
pub use decimal::lemma_dec_chars_len;
pub use decimal::lemma_dec_chars_len_usize;
pub use decimal::pow10;
pub use decimal::usize_to_decimal;
pub use request::concat_fields;
pub use request::content_length_field;
pub use request::encode;
pub use request::generate_header_length;
pub use request::generate_headers;
pub use request::generate_request;
pub use request::header_block;
pub use request::lemma_encode_deterministic;
pub use request::lemma_fields_ascii;
pub use request::lemma_request_framing;
pub use request::scgi_field;
pub use request::spec_request;
pub use request::total_byte_len;
pub use response::colon;
pub use response::crlf;
pub use response::double_crlf;
pub use response::lemma_parse_malformed_line;
pub use response::lemma_parse_separator_count;
pub use response::parse_line;
pub use response::parse_lines;
pub use response::parse_response;
pub use response::spec_parse;
pub use response::split_lines;
pub use response::Header;
pub use response::Response;
pub use search::lemma_find_none;
pub use search::lemma_find_some;
pub use search::match_at;
pub use search::spec_find;
