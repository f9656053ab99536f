[package]
name = "zarr_tui"
version = "0.1.0"
edition = "2021"
publish = false

[dependencies]
lru = { version = "*", default-features = false }
ndarray = "*"
url = "*"
anyhow = "*"
crossterm = "*"
ratatui = { version = "*", default-features = false, features = ["crossterm"] }
tokio = { version = "*", features = ["rt-multi-thread", "macros", "sync", "time"] }
futures = "*"
object_store = { version = "*", features = ["aws"] }
parking_lot = "*"
serde_json = "*"
zarrs = { version = "*", default-features = false, features = ["ndarray", "gzip", "sharding", "transpose", "crc32c"] }
zarrs_filesystem = "*"
zarrs_object_store = "*"
zarrs_storage = "*"
