[package]
name = "lsp_diff"
version = "0.1.0"
edition = "2021"
publish = false

[dependencies]
diffs = "=0.3.0"
smallvec = "=1.16.4"
ropey = "=1.6.1"
lsp-types = "=0.83.1"
serde = { version = "=1.0.229", features = ["derive"] }
serde_json = "=1.0.154"
sys-info = "=0.9.1"
