[package]
name = "fulltext_search"
version = "0.1.0"
edition = "2021"
publish = false

[dependencies]
actix-web = "4"
bincode = "1"
derive_more = "0.99"
phf = "*"
r2d2 = "*"
r2d2_sqlite = "*"
rocksdb = "*"
rusqlite = { version = "*", features = ["bundled"] }
serde = { version = "1", features = ["derive"] }
serde_derive = "1"
