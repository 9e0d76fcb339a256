[package]
name = "reply-branching"
version = "0.1.0"
edition = "2021"
publish = false

[dependencies]
chrono = { version = "0.4", default-features = false, features = ["clock"] }
color-eyre = { version = "0.6", default-features = false }
ratatui = { version = "0.29", default-features = false }
tracing = { version = "0.1", default-features = false, features = ["std"] }
