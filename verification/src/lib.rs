pub mod catalog;
pub mod executor;
pub mod json;
pub mod sql;
pub mod storage;
pub mod text;
