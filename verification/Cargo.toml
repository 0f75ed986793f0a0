[package]
name = "trail"
version = "0.1.0"
edition = "2021"
publish = false

[dependencies]
syntect = { version = "5", default-features = false, features = ["default-fancy"] }
two-face = { version = "0.4", default-features = false, features = ["syntect-fancy"] }
pulldown-cmark = { version = "0.13", default-features = false, features = ["html"] }
aho-corasick = "1"
anyhow = "1"
clap = { version = "4", features = ["derive"] }
serde = { version = "1", features = ["derive"] }
serde_json = "1"
serde_yaml_ng = "0.10"
toml = "0.8"
minijinja = "2"
imagesize = "0.13"
tokio = { version = "1", features = ["rt", "rt-multi-thread", "macros", "net", "sync"] }
tokio-stream = { version = "0.1", features = ["sync"] }
axum = "0.8"
tower-http = { version = "0.6", features = ["fs"] }
notify = "8"
pagefind = "1"
