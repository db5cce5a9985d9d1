pub mod actions;
pub mod cli;
pub mod codec;
pub mod component;
pub mod dateutil;
pub mod digits;
pub mod errors;
pub mod icaltime;
pub mod icalvevent;
pub mod icalwrap;
pub mod index;
pub mod khevent;
pub mod list;
pub mod recur;
pub mod select;
pub mod selectors;
pub mod strutil;
pub mod utils;
