[package]
name = "peergos_fs"
version = "0.1.0"
edition = "2021"
publish = false

[dependencies]
crc32fast = "1"
flate2 = "1"
async-trait = "0.1"
