[package]
name = "getmacrede"
version = "0.1.0"
edition = "2021"
publish = false

[dependencies]
chrono = { version = "0.4", features = ["serde"] }
clap = { version = "4", features = ["derive"] }
colored = "2"
console = { version = "0.15", default-features = false, features = ["ansi-parsing"] }
dns-lookup = "2"
fs2 = "0.4"
notify-rust = "4"
pnet = "0.35"
reqwest = { version = "0.12", features = ["json"] }
serde = { version = "1", features = ["derive"] }
serde_json = "1"
tokio = { version = "1", features = ["rt-multi-thread", "macros", "time"] }
trust-dns-resolver = "0.23"
