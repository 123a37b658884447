[package]
name = "pkgx"
version = "0.1.0"
edition = "2021"
publish = false

[dependencies]
rusqlite = { version = "*", features = ["bundled"] }
tokio = { version = "*", features = ["macros", "rt-multi-thread", "fs", "io-util"] }
reqwest = { version = "*", default-features = false, features = ["stream"] }
async-compression = { version = "*", features = ["gzip", "tokio"] }
tokio-tar = "*"
tokio-util = { version = "*", features = ["compat"] }
futures = "*"
fs2 = "*"
indicatif = "*"
serde = { version = "*", features = ["derive"] }
serde_yaml = "*"
serde_json = "*"
dirs-next = "*"
libc = "*"
regex = "*"

[dev-dependencies]
libsemverator = "*"
