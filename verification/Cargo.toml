[package]
name = "asr_pipeline"
version = "0.1.0"
edition = "2021"
publish = false

[dependencies]
serde = { version = "*", features = ["derive"] }
serde_json = "*"
log = "*"
num_cpus = "*"
symphonia = "=0.5.5"
rubato = "=0.15.0"
sherpa-rs = "=0.6.8"
reqwest = { version = "*", default-features = false, features = ["stream"] }
futures-util = "*"
tokio = { version = "*", features = ["rt"] }
