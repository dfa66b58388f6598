[package]
name = "lsm_db"
version = "0.8.0"
edition = "2021"
publish = false

[dependencies]
crc32c = "0.6"
bloom-lib = { version = "1", features = ["serde"] }
postcard = { version = "1", default-features = false, features = ["alloc"] }
wal-db = { version = "1", default-features = false }
error-forge = "1"
