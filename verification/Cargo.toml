[package]
name = "binsync"
version = "0.1.0"
edition = "2021"
publish = false

[dependencies]
fastcdc = "=1.0.8"
md5 = "=0.7.0"
walkdir = "=2.5.0"
serde = { version = "=1.0.229", features = ["derive"] }
bincode = "=1.3.3"
clap = { version = "=3.2.25", features = ["derive"] }
indicatif = "0.17"
reqwest = { version = "=0.11.27", default-features = false, features = ["blocking"] }
thiserror = "=1.0.69"

[dev-dependencies]
rand = "=0.8.8"
sha2 = "=0.10.9"
