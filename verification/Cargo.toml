[package]
name = "git-vibe"
version = "0.2.0"
edition = "2021"
publish = false

[dependencies]
chrono = "=0.4.45"
clap = { version = "=4.6.7", features = ["derive"] }
colored = "=3.1.1"
comfy-table = "=7.2.2"
gix = { version = "=0.72.1", default-features = false, features = ["max-performance-safe", "comfort", "revision"] }
serde = { version = "=1.0.229", features = ["derive"] }
serde_json = "=1.0.154"
thiserror = "=2.0.21"
