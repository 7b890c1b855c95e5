[package]
name = "pointdexter"
version = "0.1.0"
edition = "2021"
publish = false

[dependencies]
crossbeam-skiplist = "0.1"
dashmap = "6"
parking_lot = "0.12"
