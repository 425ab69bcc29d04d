pub mod error;
pub mod header;
pub mod reader;
pub mod any;
pub mod set_of;
pub mod strings;
pub mod cms;
pub mod round_trip;
