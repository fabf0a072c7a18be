pub mod bytes_util;
pub mod digits;
pub mod errors;
pub mod export;
pub mod pattern;
pub mod segment;
pub mod subs;
pub mod time;
