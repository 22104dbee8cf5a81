[package]
name = "bedrock_chat"
version = "0.1.0"
edition = "2021"
publish = false

[dependencies]
chrono = "0.4"
uuid = { version = "1", features = ["v4"] }
anyhow = "1"
arboard = { version = "3", default-features = false }
aws-sdk-bedrockruntime = { version = "1", default-features = false }
eframe = { version = "*", default-features = false, features = ["glow", "default_fonts", "x11"] }
egui_commonmark = { version = "*", default-features = false, features = ["pulldown_cmark"] }
pulldown-cmark = { version = "*", default-features = false }
rand = "0.8"
security-framework = "*"
tokio = { version = "1", features = ["rt-multi-thread", "sync", "macros"] }
tracing = "0.1"
tracing-subscriber = { version = "0.3", features = ["env-filter"] }
