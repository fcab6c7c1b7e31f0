[package]
name = "symbolic_eval"
version = "0.1.0"
edition = "2021"
publish = false

[dependencies]
anyhow = "=1.0.104"
ciborium = "=0.2.2"
hashbrown = "=0.17.1"
itertools = "=0.15.0"
peroxide = { version = "=0.43.1", features = ["serde"] }
serde = { version = "=1.0.229", features = ["derive"] }
symbolica = "=2.2.0"
thiserror = "=2.0.21"
