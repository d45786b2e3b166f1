//! Ordered local logs: the verified core of the RLOGGER logger and its local reader.
pub mod text;
pub mod names;
pub mod storage;
pub mod value;
pub mod fields;
pub mod model;
pub mod routing;
pub mod time;
pub mod engine;
pub mod admission;
pub mod control;
pub mod report;
pub mod writer;
pub mod grouping;
pub mod protocol;
pub mod management;
pub mod files;
pub mod server;
pub mod request;
pub mod archive;
pub mod live;
pub mod capture;
pub mod segments;
pub mod worker;
pub mod accounting;
pub mod laws;
