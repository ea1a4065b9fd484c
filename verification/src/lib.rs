//! Zero-allocation codec helpers for a tag-value, ASCII-delimited wire
//! format: primitive readers and writers, a pre-initialized message
//! buffer with in-place body-length patching, cached timestamp
//! formatting, a process-unique identifier generator, and the error
//! shapes used to report missing or invalid fields.

pub mod buffer;
pub mod digits;
pub mod errors;
pub mod laws;
pub mod reading;
pub mod special;
pub mod writing;

pub use buffer::forge_out_buffer;
pub use buffer::forge_write_start;
pub use buffer::update_body_length;
pub use buffer::BODY_LENGTH_VALUE_POS;
pub use buffer::FORGE_BUFFER_SIZE;
pub use buffer::FORGE_HEADER_LEN;
pub use buffer::FORGE_WRITE_START;
pub use errors::ReadError;
pub use reading::is_digit;
pub use reading::read_bool;
pub use reading::read_decimal32;
pub use reading::read_decimal64;
pub use reading::read_i16;
pub use reading::read_i32;
pub use reading::read_i64;
pub use reading::read_str;
pub use reading::read_u16;
pub use reading::read_u32;
pub use reading::read_u64;
pub use special::compose_id;
pub use special::derive_process_tag;
pub use special::digit36;
pub use special::encode_base36_fixed13;
pub use special::format_logging_timestamp_from_timespec;
pub use special::format_timestamp_from_timespec;
pub use special::splitmix64;
pub use special::write_tag_and_ClOrdID;
pub use special::DateCache;
pub use special::IdGenerator;
pub use special::Timespec;
pub use special::MAX_CACHEABLE_DAY;
pub use special::SECS_PER_DAY;
pub use special::UNCACHED_DAY;
pub use writing::digits_u128;
pub use writing::digits_u16;
pub use writing::digits_u32;
pub use writing::digits_u64;
pub use writing::write_frac15_from_u128;
pub use writing::write_frac6_from_u32;
pub use writing::write_i16;
pub use writing::write_i32;
pub use writing::write_i64;
pub use writing::write_scaled15;
pub use writing::write_scaled6;
pub use writing::write_tag_and_bool;
pub use writing::write_tag_and_bytes;
pub use writing::write_tag_and_i16;
pub use writing::write_tag_and_i32;
pub use writing::write_tag_and_i64;
pub use writing::write_tag_and_str;
pub use writing::write_tag_and_u16;
pub use writing::write_tag_and_u32;
pub use writing::write_tag_and_u64;
pub use writing::write_u128;
pub use writing::write_u16;
pub use writing::write_u32;
pub use writing::write_u64;
