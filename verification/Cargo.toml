[package]
name = "fstar_deps"
version = "0.1.0"
edition = "2021"
publish = false

[dependencies]
url = "*"
internment = { version = "*", features = ["arc"] }
base64 = "*"
tokio = { version = "*", features = ["process", "sync", "rt", "macros"] }
tempfile = "*"
sha2 = "*"
nix-nar = "*"
once_cell = "*"
thiserror = "*"
