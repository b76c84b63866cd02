[package]
name = "rsllm"
version = "0.1.0"
edition = "2021"
publish = false

[dependencies]
bytemuck = "1"
clap = { version = "4", features = ["derive"] }
half = "2"
memmap2 = "0.9"
rayon = "1"
rustyline = "14"
serde = { version = "1", features = ["derive"] }
serde_json = "1"
sha2 = "0.10"
thiserror = "2"
tracing = "0.1"
tracing-subscriber = { version = "0.3", features = ["env-filter"] }
