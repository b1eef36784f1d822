[package]
name = "vanadis"
version = "0.1.0"
edition = "2021"
publish = false

[dependencies]
toml_edit = "0.22"
saphyr = "*"
similar = "2"
thiserror = "2"
anyhow = "1"
clap = { version = "4", features = ["derive"] }
serde_json = "1"
flate2 = "1"
tar = "0.4"
