[package]
name = "raphtory"
version = "0.1.0"
edition = "2021"
publish = false

[dependencies]
itertools = "0.12"
chrono = { version = "0.4", default-features = false, features = ["std"] }
serde = { version = "1", features = ["derive"] }
thiserror = "1"
