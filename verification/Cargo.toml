[package]
name = "json_diff"
version = "0.1.0"
edition = "2021"
publish = false

[dependencies]
serde_json = "1"
thiserror = "1"
vg_errortools = "*"
clap = { version = "4", features = ["derive"] }

[dev-dependencies]
diffs = "0.5"
