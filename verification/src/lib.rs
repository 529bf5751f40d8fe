//! A small paged storage engine: a model of database files made of fixed-size
//! blocks, a buffer pool with LRU and clock replacement, slotted data pages,
//! table headers and B+ tree index node records.
#![allow(non_camel_case_types)]
#![allow(non_snake_case)]

pub mod bytes;
pub mod disk;
pub mod buffer_pool;
pub mod page;
pub mod record;
pub mod key_value_pair;
pub mod node;
pub mod bplus_tree;
pub mod global;
pub mod kd_database;
pub mod kd_type;
pub mod pg_setting;
