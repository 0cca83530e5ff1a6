[package]
name = "go_profile_lsp"
version = "0.0.1"
edition = "2021"
publish = false

[dependencies]
flate2 = "1"
glob = "0.3"
prost = "0.13"
serde = { version = "1", features = ["derive"] }
serde_json = "1"
tokio = { version = "1", features = ["full"] }
tower-lsp = "0.20"
tracing = "0.1"
tracing-subscriber = { version = "0.3", features = ["env-filter"] }
zed_extension_api = "0.7"
