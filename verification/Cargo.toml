[package]
name = "git-vector-grep"
version = "0.1.0"
edition = "2021"
publish = false

[dependencies]
anyhow = "1"
bytemuck = "1"
candle-core = "0.8"
candle-nn = "0.8"
candle-transformers = "0.8"
clap = { version = "4", features = ["derive"] }
dirs = "6"
fastembed = { version = "5", default-features = false, features = ["ort-load-dynamic", "hf-hub-native-tls"] }
hf-hub = { version = "0.5", default-features = false, features = ["ureq"] }
mach2 = "0.4"
memchr = "2"
ort = { version = "=2.0.0-rc.12", default-features = false, features = ["std", "ndarray", "load-dynamic", "coreml"] }
rayon = "1"
rusqlite = { version = "0.31", features = ["bundled"] }
serde = { version = "1", features = ["derive"] }
serde_json = "1"
sha1 = "0.10"
tokenizers = "0.22"
ureq = { version = "2", features = ["json"] }
